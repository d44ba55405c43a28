//! The application: a state, a world and a scheduler, ticked until an
//! event asks it to stop.

use crate::main_state::{any_terminates, stop_message, Event, HelloWorld, Trans};
use crate::scheduler::{ticked, Processor, Scheduler, TickReport};
use crate::world::{registered, World};
use vstd::prelude::*;

verus! {

/// An application. It is built with its processors, started, ticked while
/// it is running, and stopped.
pub struct Application<T> {
    state: HelloWorld,
    world: World<T>,
    scheduler: Scheduler,
    running: bool,
}

impl<T> Application<T> {
    /// The application's world, in specifications.
    pub closed spec fn spec_world(&self) -> World<T> {
        self.world
    }

    /// The application's scheduler.
    pub closed spec fn scheduler(&self) -> Scheduler {
        self.scheduler
    }

    /// Whether the application is started and no event has asked it to
    /// stop, in specifications.
    pub closed spec fn spec_is_running(&self) -> bool {
        self.running
    }

    /// The application's invariant: that of its world and scheduler.
    pub open spec fn wf(&self) -> bool {
        self.spec_world().wf() && self.scheduler().wf()
    }

    /// An application with `state`, an empty world and no processors. It
    /// is not running yet.
    pub fn new(state: HelloWorld) -> (app: Self)
        ensures
            app.wf(),
            !app.is_running(),
            app.scheduler().slots().len() == 0,
            app.spec_world().created() == 0,
            app.spec_world().positions() is None,
            app.spec_world().speeds() is None,
            app.spec_world().meshes() is None,
            app.spec_world().spheres() is None,
    {
        Application { state, world: World::new(), scheduler: Scheduler::new(), running: false }
    }

    /// The same application with `processor` registered under `name` with
    /// `priority`, in the place that `Scheduler::add` gives it.
    pub fn with(self, processor: Processor, name: &str, priority: i32) -> (app: Self)
        requires
            self.wf(),
        ensures
            app.wf(),
            app.spec_world() == self.spec_world(),
            app.is_running() == self.is_running(),
            app.scheduler().slots().len() == self.scheduler().slots().len() + 1,
            exists|at: int|
                0 <= at <= self.scheduler().slots().len() && placed(
                    self.scheduler(),
                    app.scheduler(),
                    at,
                    processor,
                    name@,
                    priority,
                ),
    {
        let mut app = self;
        let at = app.scheduler.add(processor, name, priority);
        assert(placed(self.scheduler(), app.scheduler(), at as int, processor, name@, priority));
        app
    }

    /// The application's world.
    pub fn world(&self) -> (w: &World<T>)
        ensures
            *w == self.spec_world(),
    {
        &self.world
    }

    /// The application's world, for writing.
    pub fn world_mut(&mut self) -> (w: &mut World<T>)
        ensures
            *w == old(self).spec_world(),
            final(self).spec_world() == *final(w),
            final(self).scheduler() == old(self).scheduler(),
            final(self).is_running() == old(self).is_running(),
    {
        &mut self.world
    }

    /// Whether the application is started and no event has asked it to
    /// stop.
    #[verifier::when_used_as_spec(spec_is_running)]
    pub fn is_running(&self) -> (b: bool)
        ensures
            b == self.spec_is_running(),
    {
        self.running
    }

    /// Whether a tick can count its frames.
    pub fn can_tick(&self) -> (b: bool)
        ensures
            b == self.scheduler().can_tick(),
    {
        self.scheduler.can_tick()
    }

    /// Starts the application: the state registers its component types,
    /// and the application is running.
    pub fn start(&mut self)
        requires
            old(self).wf(),
        ensures
            final(self).wf(),
            final(self).is_running(),
            final(self).scheduler() == old(self).scheduler(),
            registered(old(self).spec_world().positions(), final(self).spec_world().positions()),
            registered(old(self).spec_world().speeds(), final(self).spec_world().speeds()),
            registered(old(self).spec_world().meshes(), final(self).spec_world().meshes()),
            final(self).spec_world().spheres() == old(self).spec_world().spheres(),
            final(self).spec_world().same_entities(&old(self).spec_world()),
    {
        self.state.on_start(&mut self.world);
        self.running = true;
    }

    /// One tick: the state reads the events, then the scheduler runs its
    /// processors. The tick is run to its end even when an event asks the
    /// application to stop; it is then no longer running afterwards.
    pub fn tick<F: Fn(T, T) -> T>(&mut self, events: Vec<Event>, plus: &F) -> (report: TickReport<T>) where
        T: Copy,

        requires
            old(self).wf(),
            old(self).scheduler().can_tick(),
            forall|a: T, b: T| call_requires(*plus, (a, b)),
        ensures
            final(self).wf(),
            final(self).is_running() == (old(self).is_running() && !any_terminates(events@)),
            ticked(
                *plus,
                old(self).scheduler().slots(),
                final(self).scheduler().slots(),
                old(self).spec_world(),
                final(self).spec_world(),
                report,
            ),
    {
        let asked = self.state.handle_events(events);
        let report = self.scheduler.run_tick(&mut self.world, plus);
        let own = self.state.update();
        if asked == Trans::Quit || own == Trans::Quit {
            self.running = false;
        }
        report
    }

    /// Stops the application and returns the message to log.
    pub fn stop(&mut self) -> (message: String)
        ensures
            !final(self).is_running(),
            final(self).spec_world() == old(self).spec_world(),
            final(self).scheduler() == old(self).scheduler(),
            message@ == stop_message(),
    {
        self.running = false;
        self.state.on_stop()
    }
}

/// Whether `after` is the scheduler `before` with one more processor,
/// registered with the given name and priority and standing at `at`:
/// behind every slot whose priority number is not higher and before every
/// one whose number is higher.
pub open spec fn placed(
    before: Scheduler,
    after: Scheduler,
    at: int,
    processor: Processor,
    name: Seq<char>,
    priority: i32,
) -> bool {
    &&& after.slots().len() == before.slots().len() + 1
    &&& 0 <= at <= before.slots().len()
    &&& forall|i: int| 0 <= i < at ==> before.slots()[i].priority <= priority
    &&& forall|i: int| at <= i < before.slots().len() ==> before.slots()[i].priority > priority
    &&& forall|i: int| 0 <= i < at ==> after.slots()[i] == before.slots()[i]
    &&& forall|i: int| at < i < after.slots().len() ==> after.slots()[i] == before.slots()[i - 1]
    &&& after.slots()[at].name@ == name
    &&& after.slots()[at].priority == priority
    &&& after.slots()[at].ordinal == before.slots().len()
    &&& after.slots()[at].processor == processor
}

} // verus!
