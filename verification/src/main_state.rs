//! The application's state: what it does on start, on events, each tick
//! and on stop.

use crate::world::{registered, World};
use vstd::prelude::*;

verus! {

/// A key of the keyboard, as far as the application tells keys apart.
#[derive(Clone, Copy, Debug, PartialEq, Eq, Structural)]
pub enum Key {
    Escape,
    Other,
}

/// Whether a key went down or came up.
#[derive(Clone, Copy, Debug, PartialEq, Eq, Structural)]
pub enum KeyState {
    Pressed,
    Released,
}

/// An input or window event.
#[derive(Clone, Copy, Debug, PartialEq, Eq, Structural)]
pub enum Event {
    /// The window was closed.
    Closed,
    /// A key went down or came up; the key is absent where the keyboard
    /// gave no code.
    KeyboardInput(KeyState, Option<Key>),
    /// Any other event.
    Other,
}

/// What the application is to do after a tick.
#[derive(Clone, Copy, Debug, PartialEq, Eq, Structural)]
pub enum Trans {
    /// Go on ticking.
    Continue,
    /// Stop after this tick.
    Quit,
}

/// Whether `event` asks the application to stop: the window was closed,
/// or the escape key was pressed. A release of the escape key does not.
pub open spec fn terminates(event: Event) -> bool {
    event == Event::Closed || event == Event::KeyboardInput(KeyState::Pressed, Some(Key::Escape))
}

/// Whether one of `events` asks the application to stop.
pub open spec fn any_terminates(events: Seq<Event>) -> bool {
    exists|i: int| 0 <= i < events.len() && terminates(#[trigger] events[i])
}

/// The message that is logged when the application stops.
pub open spec fn stop_message() -> Seq<char> {
    "Game stopped!"@
}

/// The state of the application.
#[derive(Debug)]
pub struct HelloWorld;

impl HelloWorld {
    /// Reads the events of one tick: `Quit` when one of them asks the
    /// application to stop, `Continue` otherwise.
    pub fn handle_events(&mut self, events: Vec<Event>) -> (trans: Trans)
        ensures
            trans == if any_terminates(events@) {
                Trans::Quit
            } else {
                Trans::Continue
            },
    {
        let mut trans = Trans::Continue;
        let mut i: usize = 0;
        while i < events.len()
            invariant
                i <= events@.len(),
                trans == if exists|k: int| 0 <= k < i && terminates(#[trigger] events@[k]) {
                    Trans::Quit
                } else {
                    Trans::Continue
                },
            decreases events@.len() - i,
        {
            match events[i] {
                Event::KeyboardInput(KeyState::Pressed, Some(Key::Escape)) => {
                    trans = Trans::Quit;
                },
                Event::Closed => {
                    trans = Trans::Quit;
                },
                _ => {},
            }
            proof {
                if terminates(events@[i as int]) {
                    assert(0 <= i < i + 1 && terminates(events@[i as int]));
                } else if exists|k: int| 0 <= k < i + 1 && terminates(#[trigger] events@[k]) {
                    let k = choose|k: int| 0 <= k < i + 1 && terminates(#[trigger] events@[k]);
                    assert(0 <= k < i && terminates(events@[k]));
                }
            }
            i = i + 1;
        }
        trans
    }

    /// Registers the component types that the processors work on:
    /// positions, speeds and meshes.
    pub fn on_start<T>(&mut self, world: &mut World<T>)
        requires
            old(world).wf(),
        ensures
            final(world).wf(),
            registered(old(world).positions(), final(world).positions()),
            registered(old(world).speeds(), final(world).speeds()),
            registered(old(world).meshes(), final(world).meshes()),
            final(world).spheres() == old(world).spheres(),
            final(world).same_entities(old(world)),
    {
        world.register_positions();
        world.register_speeds();
        world.register_meshes();
    }

    /// The state's own part of a tick: it asks to go on.
    pub fn update(&mut self) -> (trans: Trans)
        ensures
            trans == Trans::Continue,
    {
        Trans::Continue
    }

    /// The message to log on stop.
    pub fn on_stop(&mut self) -> (message: String)
        ensures
            message@ == stop_message(),
    {
        "Game stopped!".to_owned()
    }
}

} // verus!
