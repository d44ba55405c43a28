//! The scheduler: runs the registered processors, in order, once a tick.

use crate::components::{Position, Speed};
use crate::entity::Entity;
use crate::systems::{drawn, records, stepped, Frame, Render, Update};
use crate::world::{ComponentKind, RegistrationError, World};
use vstd::prelude::*;

verus! {

/// A processor, with the state it keeps from tick to tick.
#[derive(Debug)]
pub enum Processor {
    Update(Update),
    Render(Render),
}

/// A registered processor: its name, its priority, its place in the order
/// of registration, and the processor itself.
#[derive(Debug)]
pub struct Slot {
    pub name: String,
    pub priority: i32,
    pub ordinal: usize,
    pub processor: Processor,
}

/// Whether `a` runs before `b`: the lower priority number runs first, and
/// of two equal priorities the one registered first.
pub open spec fn runs_before(a: Slot, b: Slot) -> bool {
    a.priority < b.priority || (a.priority == b.priority && a.ordinal < b.ordinal)
}

/// Whether the component types that `processor` works on are registered.
pub open spec fn needs_met<T>(processor: Processor, world: World<T>) -> bool {
    match processor {
        Processor::Update(_) => world.positions() is Some && world.speeds() is Some,
        Processor::Render(_) => world.positions() is Some && world.meshes() is Some,
    }
}

/// The component type whose absence stops `processor`: positions if they
/// are not registered, else the processor's other type.
pub open spec fn missing<T>(processor: Processor, world: World<T>) -> ComponentKind {
    if world.positions() is None {
        ComponentKind::Position
    } else {
        match processor {
            Processor::Update(_) => ComponentKind::Speed,
            Processor::Render(_) => ComponentKind::Mesh,
        }
    }
}

/// How many of the first `n` slots hold a render processor.
pub open spec fn renders_before(slots: Seq<Slot>, n: nat) -> nat
    decreases n,
{
    if n == 0 {
        0
    } else {
        renders_before(slots, (n - 1) as nat) + if slots[n - 1].processor is Render {
            1nat
        } else {
            0nat
        }
    }
}

/// The positions of a world, none where positions are not registered.
pub open spec fn position_map<T>(world: World<T>) -> Map<Entity, Position<T>> {
    match world.positions() {
        Some(p) => p@,
        None => Map::empty(),
    }
}

/// The speeds of a world, none where speeds are not registered.
pub open spec fn speed_map<T>(world: World<T>) -> Map<Entity, Speed<T>> {
    match world.speeds() {
        Some(s) => s@,
        None => Map::empty(),
    }
}

/// The entities that a render run in `world` draws, none where positions
/// or meshes are not registered.
pub open spec fn draw_list<T>(world: World<T>) -> Seq<Entity> {
    match (world.positions(), world.meshes()) {
        (Some(p), Some(m)) => drawn(p, m),
        _ => Seq::empty(),
    }
}

/// Whether `after` is what one run of `processor` makes of the positions
/// `before`: an update moves them one step, a render run leaves them.
pub open spec fn positions_after<T, F: Fn(T, T) -> T>(
    plus: F,
    processor: Processor,
    speeds: Map<Entity, Speed<T>>,
    before: Map<Entity, Position<T>>,
    after: Map<Entity, Position<T>>,
) -> bool {
    match processor {
        Processor::Update(_) => stepped(plus, before, speeds, after),
        Processor::Render(_) => after == before,
    }
}

/// Whether a run of the processor `before` in the world `then` that
/// succeeded left the processor `after`, the world `now` and `frame`.
///
/// An update moves the positions one step and gives no frame. A render
/// run leaves the world as it is, counts its frame, and gives the frame
/// with one draw record for each entity it draws, at its position.
pub open spec fn ran_well<T, F: Fn(T, T) -> T>(
    plus: F,
    before: Processor,
    after: Processor,
    then: World<T>,
    now: World<T>,
    frame: Option<Frame<T>>,
) -> bool {
    &&& needs_met(before, then)
    &&& world_ticked(then, now)
    &&& positions_after(plus, before, speed_map(then), position_map(then), position_map(now))
    &&& match before {
        Processor::Update(_) => frame is None && after == before,
        Processor::Render(r) => {
            &&& frame matches Some(f)
            &&& f.shows(r, records(draw_list(then), position_map(then)))
            &&& after == Processor::Render(r.ran())
        },
    }
}

/// Whether a run of the processor `before` in the world `then` that
/// failed with `error` left the processor `after` and the world `now`:
/// a component type was not registered, and nothing has changed.
pub open spec fn failed<T>(
    before: Processor,
    after: Processor,
    then: World<T>,
    now: World<T>,
    error: RegistrationError,
) -> bool {
    &&& !needs_met(before, then)
    &&& error.component == missing(before, then)
    &&& after == before
    &&& now.positions() == then.positions()
    &&& now.speeds() == then.speeds()
    &&& now.meshes() == then.meshes()
    &&& now.spheres() == then.spheres()
    &&& now.same_entities(&then)
}

impl Processor {
    /// Whether a run can count its frame: a render processor must not
    /// have reached the last frame number.
    pub open spec fn can_run(&self) -> bool {
        self matches Processor::Render(r) ==> r.frame_count() < u32::MAX
    }

    /// One tick of this processor: an update moves the positions, a
    /// render run gives its frame.
    ///
    /// The run fails, and changes nothing, when a component type that the
    /// processor works on is not registered.
    pub fn run<T: Copy, F: Fn(T, T) -> T>(&mut self, world: &mut World<T>, plus: &F) -> (r: Result<
        Option<Frame<T>>,
        RegistrationError,
    >)
        requires
            old(self).can_run(),
            old(world).wf(),
            forall|a: T, b: T| call_requires(*plus, (a, b)),
        ensures
            final(world).wf(),
            match r {
                Ok(frame) => ran_well(
                    *plus,
                    *old(self),
                    *final(self),
                    *old(world),
                    *final(world),
                    frame,
                ),
                Err(e) => failed(*old(self), *final(self), *old(world), *final(world), e),
            },
    {
        match self {
            Processor::Update(u) => match u.run(world, plus) {
                Ok(_) => Ok(None),
                Err(e) => Err(e),
            },
            Processor::Render(r) => match r.run(world) {
                Ok(frame) => Ok(Some(frame)),
                Err(e) => Err(e),
            },
        }
    }
}

/// Whether the slot `after` is the slot `before` one tick later, having
/// run in that tick or not: only a render processor that ran differs, by
/// one frame counted and the pipeline no longer to be set up.
pub open spec fn slot_ticked(before: Slot, after: Slot, ran: bool) -> bool {
    &&& after.name == before.name
    &&& after.priority == before.priority
    &&& after.ordinal == before.ordinal
    &&& match before.processor {
        Processor::Render(r) => if ran {
            after.processor == Processor::Render(r.ran())
        } else {
            after.processor == before.processor
        },
        Processor::Update(_) => after.processor == before.processor,
    }
}

/// Whether `after` are the slots `before` after a tick in which the first
/// `ran` of them ran.
pub open spec fn slots_ticked(before: Seq<Slot>, after: Seq<Slot>, ran: nat) -> bool {
    &&& after.len() == before.len()
    &&& forall|i: int|
        0 <= i < before.len() ==> slot_ticked(#[trigger] before[i], after[i], i < ran)
}

/// Whether `trace` holds the positions as each of the first `ran` of
/// `slots` found and left them: `trace[i]` is what the `i`-th processor
/// found, `trace[i + 1]` what it left.
pub open spec fn positions_traced<T, F: Fn(T, T) -> T>(
    plus: F,
    slots: Seq<Slot>,
    speeds: Map<Entity, Speed<T>>,
    trace: Seq<Map<Entity, Position<T>>>,
    ran: nat,
) -> bool {
    &&& trace.len() == ran + 1
    &&& forall|i: int|
        0 <= i < ran ==> positions_after(
            plus,
            (#[trigger] slots[i]).processor,
            speeds,
            trace[i],
            trace[i + 1],
        )
}

/// Whether `frames` are the frames of a tick in which the first `ran` of
/// `slots` ran: one frame for each render processor among them, in
/// running order, and in it one draw record for each entity of `walk`,
/// with the position that the processor found when it ran.
pub open spec fn frames_ticked<T>(
    slots: Seq<Slot>,
    frames: Seq<Frame<T>>,
    ran: nat,
    walk: Seq<Entity>,
    trace: Seq<Map<Entity, Position<T>>>,
) -> bool {
    &&& frames.len() == renders_before(slots, ran)
    &&& forall|i: int|
        0 <= i < ran ==> ((#[trigger] slots[i]).processor matches Processor::Render(r)
            ==> frames[renders_before(slots, i as nat) as int].shows(r, records(walk, trace[i])))
}

/// Whether `after` is the world `before` but for the values of its
/// positions: the same entities, the same storages, and the positions of
/// the same entities in the same order.
pub open spec fn world_ticked<T>(before: World<T>, after: World<T>) -> bool {
    &&& after.speeds() == before.speeds()
    &&& after.meshes() == before.meshes()
    &&& after.spheres() == before.spheres()
    &&& after.same_entities(&before)
    &&& match (before.positions(), after.positions()) {
        (Some(p), Some(q)) => q.entities() == p.entities() && q@.dom() == p@.dom(),
        (None, None) => true,
        _ => false,
    }
}

/// What one tick of the scheduler did.
#[derive(Debug)]
pub struct TickReport<T> {
    /// How many processors ran to their end, from the first in order on.
    pub ran: usize,
    /// The frames of the render processors that ran, in running order.
    pub frames: Vec<Frame<T>>,
    /// Why the processor after the last that ran failed, if one did; the
    /// tick ended there.
    pub failure: Option<RegistrationError>,
}

/// Whether `trace` holds the positions of one tick, processor by
/// processor, from those of the world `start` to those of the world
/// `now`, and the frames of `report` show them as they were when each
/// render processor ran.
pub open spec fn traced<T, F: Fn(T, T) -> T>(
    plus: F,
    before: Seq<Slot>,
    start: World<T>,
    now: World<T>,
    report: TickReport<T>,
    trace: Seq<Map<Entity, Position<T>>>,
) -> bool {
    &&& positions_traced(plus, before, speed_map(start), trace, report.ran as nat)
    &&& trace[0] == position_map(start)
    &&& trace[report.ran as int] == position_map(now)
    &&& frames_ticked(before, report.frames@, report.ran as nat, draw_list(start), trace)
}

/// Whether `report`, the slots `after` and the world `now` are what one
/// tick makes of the slots `before` and the world `start`.
///
/// The processors run in slot order up to the first whose component types
/// are not all registered; the report names what that one missed. Each
/// update that ran moved the positions one step from where the processor
/// before it left them. Each render processor that ran gave one frame,
/// whose draw records carry the positions as they were at that moment.
pub open spec fn ticked<T, F: Fn(T, T) -> T>(
    plus: F,
    before: Seq<Slot>,
    after: Seq<Slot>,
    start: World<T>,
    now: World<T>,
    report: TickReport<T>,
) -> bool {
    &&& report.ran <= before.len()
    &&& forall|i: int| 0 <= i < report.ran ==> needs_met(#[trigger] before[i].processor, start)
    &&& report.ran < before.len() ==> !needs_met(before[report.ran as int].processor, start)
        && report.failure == Some(
        RegistrationError { component: missing(before[report.ran as int].processor, start) },
    )
    &&& report.ran == before.len() ==> report.failure is None
    &&& slots_ticked(before, after, report.ran as nat)
    &&& world_ticked(start, now)
    &&& exists|trace: Seq<Map<Entity, Position<T>>>|
        traced(plus, before, start, now, report, trace)
}

/// The processors of an application, kept in the order in which they run.
pub struct Scheduler {
    slots: Vec<Slot>,
}

impl Scheduler {
    /// The registered processors, in the order in which they run.
    pub closed spec fn slots(&self) -> Seq<Slot> {
        self.slots@
    }

    /// The scheduler's invariant: the slots stand in running order, and
    /// each is numbered by its place in the order of registration.
    pub open spec fn wf(&self) -> bool {
        &&& forall|i: int, j: int|
            0 <= i < j < self.slots().len() ==> runs_before(
                #[trigger] self.slots()[i],
                #[trigger] self.slots()[j],
            )
        &&& forall|i: int|
            0 <= i < self.slots().len() ==> (#[trigger] self.slots()[i]).ordinal
                < self.slots().len()
    }

    /// In every state of a scheduler the running order is by priority,
    /// never decreasing, and among equal priorities by registration.
    pub proof fn lemma_running_order(&self, i: int, j: int)
        requires
            self.wf(),
            0 <= i < j < self.slots().len(),
        ensures
            self.slots()[i].priority <= self.slots()[j].priority,
            self.slots()[i].priority == self.slots()[j].priority ==> self.slots()[i].ordinal
                < self.slots()[j].ordinal,
    {
    }

    /// A scheduler without processors.
    pub fn new() -> (s: Scheduler)
        ensures
            s.wf(),
            s.slots().len() == 0,
    {
        Scheduler { slots: Vec::new() }
    }

    /// The number of registered processors.
    pub fn len(&self) -> (n: usize)
        ensures
            n == self.slots().len(),
    {
        self.slots.len()
    }

    /// The `i`-th processor to run, with its name and priority.
    pub fn slot(&self, i: usize) -> (s: &Slot)
        requires
            i < self.slots().len(),
        ensures
            *s == self.slots()[i as int],
    {
        &self.slots[i]
    }

    /// Registers `processor` under `name` with `priority` and returns its
    /// place in the running order: behind every processor whose priority
    /// number is not higher, before every one whose number is higher.
    pub fn add(&mut self, processor: Processor, name: &str, priority: i32) -> (at: usize)
        requires
            old(self).wf(),
        ensures
            final(self).wf(),
            final(self).slots().len() == old(self).slots().len() + 1,
            at <= old(self).slots().len(),
            forall|i: int| 0 <= i < at ==> old(self).slots()[i].priority <= priority,
            forall|i: int| at <= i < old(self).slots().len() ==> old(self).slots()[i].priority > priority,
            forall|i: int| 0 <= i < at ==> final(self).slots()[i] == old(self).slots()[i],
            forall|i: int|
                at < i < final(self).slots().len() ==> final(self).slots()[i] == old(
                    self,
                ).slots()[i - 1],
            final(self).slots()[at as int].name@ == name@,
            final(self).slots()[at as int].priority == priority,
            final(self).slots()[at as int].ordinal == old(self).slots().len(),
            final(self).slots()[at as int].processor == processor,
    {
        let ordinal = self.slots.len();
        let mut at: usize = 0;
        while at < self.slots.len() && self.slots[at].priority <= priority
            invariant
                self.slots == old(self).slots,
                at <= self.slots@.len(),
                forall|i: int| 0 <= i < at ==> self.slots@[i].priority <= priority,
            decreases self.slots@.len() - at,
        {
            at = at + 1;
        }
        proof {
            assert forall|i: int| at <= i < self.slots@.len() implies self.slots@[i].priority
                > priority by {
                if i > at {
                    assert(runs_before(self.slots()[at as int], self.slots()[i]));
                }
            }
        }
        let slot = Slot { name: name.to_owned(), priority, ordinal, processor };
        self.slots.insert(at, slot);
        proof {
            let before = old(self).slots();
            let after = self.slots();
            assert forall|i: int, j: int| 0 <= i < j < after.len() implies runs_before(
                #[trigger] after[i],
                #[trigger] after[j],
            ) by {
                if i == at {
                    assert(after[j] == before[j - 1]);
                } else if j == at {
                    assert(after[i] == before[i]);
                } else {
                    let ii = if i < at { i } else { i - 1 };
                    let jj = if j < at { j } else { j - 1 };
                    assert(after[i] == before[ii] && after[j] == before[jj]);
                    assert(runs_before(before[ii], before[jj]));
                }
            }
            assert forall|i: int| 0 <= i < after.len() implies (#[trigger] after[i]).ordinal
                < after.len() by {
                if i != at {
                    let ii = if i < at { i } else { i - 1 };
                    assert(after[i] == before[ii]);
                }
            }
        }
        at
    }

    /// Whether a tick can count its frames: no render processor has
    /// reached the last frame number.
    pub open spec fn spec_can_tick(&self) -> bool {
        forall|i: int|
            0 <= i < self.slots().len() ==> (#[trigger] self.slots()[i].processor matches Processor::Render(
                r,
            ) ==> r.frame_count() < u32::MAX)
    }

    /// Whether a tick can count its frames: no render processor has
    /// reached the last frame number.
    #[verifier::when_used_as_spec(spec_can_tick)]
    pub fn can_tick(&self) -> (b: bool)
        ensures
            b == self.spec_can_tick(),
    {
        let mut i: usize = 0;
        while i < self.slots.len()
            invariant
                i <= self.slots@.len(),
                forall|k: int|
                    0 <= k < i ==> (#[trigger] self.slots()[k].processor matches Processor::Render(
                        r,
                    ) ==> r.frame_count() < u32::MAX),
            decreases self.slots@.len() - i,
        {
            match &self.slots[i].processor {
                Processor::Render(r) => {
                    if r.frame_count() == u32::MAX {
                        assert(self.slots()[i as int].processor matches Processor::Render(r)
                            && r.frame_count() == u32::MAX);
                        return false;
                    }
                },
                Processor::Update(_) => {},
            }
            i = i + 1;
        }
        true
    }

    /// One tick: runs the processors in order, each once, up to the first
    /// that fails.
    ///
    /// A processor fails when a component type it works on is not
    /// registered. It is then left as it was, as are the processors behind
    /// it, which do not run in this tick.
    pub fn run_tick<T: Copy, F: Fn(T, T) -> T>(&mut self, world: &mut World<T>, plus: &F) -> (report:
        TickReport<T>)
        requires
            old(self).wf(),
            old(self).can_tick(),
            old(world).wf(),
            forall|a: T, b: T| call_requires(*plus, (a, b)),
        ensures
            final(self).wf(),
            final(world).wf(),
            ticked(*plus, old(self).slots(), final(self).slots(), *old(world), *final(world), report),
    {
        let mut frames: Vec<Frame<T>> = Vec::new();
        let mut failure: Option<RegistrationError> = None;
        let mut ran: usize = 0;
        let n = self.slots.len();
        let ghost slots = old(self).slots();
        let ghost mut trace = seq![position_map(*old(world))];
        proof {
            lemma_progress_start(*plus, slots, *old(world));
        }
        while ran < n && failure.is_none()
            invariant
                slots == old(self).slots(),
                n == slots.len(),
                ran <= n,
                old(self).can_tick(),
                world.wf(),
                forall|a: T, b: T| call_requires(*plus, (a, b)),
                failure matches Some(e) ==> ran < n && !needs_met(
                    slots[ran as int].processor,
                    *old(world),
                ) && e == (RegistrationError {
                    component: missing(slots[ran as int].processor, *old(world)),
                }),
                progress(*plus, slots, self.slots(), *old(world), *world, frames@, trace, ran as nat),
            decreases n - ran, if failure is None { 1nat } else { 0nat },
        {
            let ghost shown = frames@;
            let ghost mid = self.slots();
            let ghost then = *world;
            let ghost found = trace;
            proof {
                lemma_progress_slot(*plus, slots, mid, *old(world), then, shown, found, ran as nat);
            }
            match self.slots[ran].processor.run(world, plus) {
                Err(e) => {
                    failure = Some(e);
                    proof {
                        assert(self.slots() =~= mid);
                        lemma_progress_failed(
                            *plus,
                            slots,
                            mid,
                            *old(world),
                            then,
                            *world,
                            shown,
                            found,
                            ran as nat,
                            e,
                        );
                    }
                },
                Ok(frame) => {
                    let ghost given = frame;
                    match frame {
                        Some(f) => {
                            frames.push(f);
                            assert(frames@.drop_last() =~= shown);
                        },
                        None => {},
                    }
                    proof {
                        trace = found.push(position_map(*world));
                        lemma_progress_step(
                            *plus,
                            slots,
                            mid,
                            self.slots(),
                            *old(world),
                            then,
                            *world,
                            shown,
                            frames@,
                            given,
                            found,
                            ran as nat,
                        );
                    }
                    ran = ran + 1;
                },
            }
        }
        let report = TickReport { ran, frames, failure };
        proof {
            lemma_progress_done(
                *plus,
                slots,
                self.slots(),
                *old(world),
                *world,
                report,
                trace,
            );
            lemma_ticked_wf(slots, self.slots());
        }
        report
    }
}

/// What a tick has done when the first `ran` processors have run: the
/// loop invariant of `Scheduler::run_tick`.
#[verifier::opaque]
spec fn progress<T, F: Fn(T, T) -> T>(
    plus: F,
    before: Seq<Slot>,
    after: Seq<Slot>,
    start: World<T>,
    now: World<T>,
    frames: Seq<Frame<T>>,
    trace: Seq<Map<Entity, Position<T>>>,
    ran: nat,
) -> bool {
    &&& ran <= before.len()
    &&& forall|i: int| 0 <= i < ran ==> needs_met(#[trigger] before[i].processor, start)
    &&& slots_ticked(before, after, ran)
    &&& world_ticked(start, now)
    &&& positions_traced(plus, before, speed_map(start), trace, ran)
    &&& trace[0] == position_map(start)
    &&& trace[ran as int] == position_map(now)
    &&& frames_ticked(before, frames, ran, draw_list(start), trace)
}

/// Before the first processor runs, nothing has been done.
proof fn lemma_progress_start<T, F: Fn(T, T) -> T>(plus: F, slots: Seq<Slot>, start: World<T>)
    ensures
        progress(
            plus,
            slots,
            slots,
            start,
            start,
            Seq::<Frame<T>>::empty(),
            seq![position_map(start)],
            0,
        ),
{
    reveal(progress);
}

/// The processor that runs next is as it was before the tick, and it
/// finds registered what was registered before the tick.
proof fn lemma_progress_slot<T, F: Fn(T, T) -> T>(
    plus: F,
    before: Seq<Slot>,
    mid: Seq<Slot>,
    start: World<T>,
    then: World<T>,
    shown: Seq<Frame<T>>,
    found: Seq<Map<Entity, Position<T>>>,
    ran: nat,
)
    requires
        ran < before.len(),
        progress(plus, before, mid, start, then, shown, found, ran),
    ensures
        mid.len() == before.len(),
        mid[ran as int].processor == before[ran as int].processor,
        needs_met(before[ran as int].processor, then) == needs_met(
            before[ran as int].processor,
            start,
        ),
        missing(before[ran as int].processor, then) == missing(before[ran as int].processor, start),
{
    reveal(progress);
    assert(slot_ticked(before[ran as int], mid[ran as int], false));
}

/// A processor that fails leaves the tick where it was.
proof fn lemma_progress_failed<T, F: Fn(T, T) -> T>(
    plus: F,
    before: Seq<Slot>,
    mid: Seq<Slot>,
    start: World<T>,
    then: World<T>,
    now: World<T>,
    shown: Seq<Frame<T>>,
    found: Seq<Map<Entity, Position<T>>>,
    ran: nat,
    error: RegistrationError,
)
    requires
        ran < before.len(),
        progress(plus, before, mid, start, then, shown, found, ran),
        failed(mid[ran as int].processor, mid[ran as int].processor, then, now, error),
    ensures
        progress(plus, before, mid, start, now, shown, found, ran),
{
    reveal(progress);
}

/// The tick after one more processor has run.
proof fn lemma_progress_step<T, F: Fn(T, T) -> T>(
    plus: F,
    before: Seq<Slot>,
    mid: Seq<Slot>,
    after: Seq<Slot>,
    start: World<T>,
    then: World<T>,
    now: World<T>,
    shown: Seq<Frame<T>>,
    frames: Seq<Frame<T>>,
    given: Option<Frame<T>>,
    found: Seq<Map<Entity, Position<T>>>,
    ran: nat,
)
    requires
        ran < before.len(),
        progress(plus, before, mid, start, then, shown, found, ran),
        after.len() == mid.len(),
        forall|i: int| 0 <= i < mid.len() && i != ran ==> after[i] == mid[i],
        after[ran as int].name == mid[ran as int].name,
        after[ran as int].priority == mid[ran as int].priority,
        after[ran as int].ordinal == mid[ran as int].ordinal,
        ran_well(plus, mid[ran as int].processor, after[ran as int].processor, then, now, given),
        match given {
            Some(f) => frames.len() == shown.len() + 1 && frames.last() == f && frames.drop_last()
                == shown,
            None => frames == shown,
        },
    ensures
        progress(
            plus,
            before,
            after,
            start,
            now,
            frames,
            found.push(position_map(now)),
            ran + 1,
        ),
{
    reveal(progress);
    let trace = found.push(position_map(now));
    assert(trace.drop_last() =~= found);
    assert(slot_ticked(before[ran as int], mid[ran as int], false));
    assert(slot_ticked(mid[ran as int], after[ran as int], true));
    lemma_slots_step(before, mid, after, ran);
    lemma_trace_step(plus, before, speed_map(start), found, trace, ran);
    lemma_frames_step(before, shown, frames, ran, draw_list(start), found, trace);
}

/// When the loop has ended, the tick is as `ticked` says.
proof fn lemma_progress_done<T, F: Fn(T, T) -> T>(
    plus: F,
    before: Seq<Slot>,
    after: Seq<Slot>,
    start: World<T>,
    now: World<T>,
    report: TickReport<T>,
    trace: Seq<Map<Entity, Position<T>>>,
)
    requires
        progress(plus, before, after, start, now, report.frames@, trace, report.ran as nat),
        report.ran < before.len() ==> !needs_met(before[report.ran as int].processor, start)
            && report.failure == Some(
            RegistrationError { component: missing(before[report.ran as int].processor, start) },
        ),
        report.ran == before.len() ==> report.failure is None,
    ensures
        ticked(plus, before, after, start, now, report),
        exists|ran: nat| slots_ticked(before, after, ran),
{
    reveal(progress);
    assert(traced(plus, before, start, now, report, trace));
    assert(slots_ticked(before, after, report.ran as nat));
}

/// A tick keeps the running order.
pub proof fn lemma_ticked_wf(before: Seq<Slot>, after: Seq<Slot>)
    requires
        exists|ran: nat| slots_ticked(before, after, ran),
        forall|i: int, j: int|
            0 <= i < j < before.len() ==> runs_before(#[trigger] before[i], #[trigger] before[j]),
        forall|i: int| 0 <= i < before.len() ==> (#[trigger] before[i]).ordinal < before.len(),
    ensures
        forall|i: int, j: int|
            0 <= i < j < after.len() ==> runs_before(#[trigger] after[i], #[trigger] after[j]),
        forall|i: int| 0 <= i < after.len() ==> (#[trigger] after[i]).ordinal < after.len(),
{
    let ran = choose|ran: nat| slots_ticked(before, after, ran);
    assert forall|i: int, j: int| 0 <= i < j < after.len() implies runs_before(
        #[trigger] after[i],
        #[trigger] after[j],
    ) by {
        assert(slot_ticked(before[i], after[i], i < ran));
        assert(slot_ticked(before[j], after[j], j < ran));
        assert(runs_before(before[i], before[j]));
    }
    assert forall|i: int| 0 <= i < after.len() implies (#[trigger] after[i]).ordinal
        < after.len() by {
        assert(slot_ticked(before[i], after[i], i < ran));
        assert(before[i].ordinal < before.len());
    }
}

/// The slots after one more processor has run.
proof fn lemma_slots_step(before: Seq<Slot>, mid: Seq<Slot>, after: Seq<Slot>, ran: nat)
    requires
        ran < before.len(),
        slots_ticked(before, mid, ran),
        after.len() == mid.len(),
        forall|i: int| 0 <= i < mid.len() && i != ran ==> after[i] == mid[i],
        slot_ticked(mid[ran as int], after[ran as int], true),
    ensures
        slots_ticked(before, after, ran + 1),
{
    assert forall|i: int| 0 <= i < before.len() implies slot_ticked(
        #[trigger] before[i],
        after[i],
        i < ran + 1,
    ) by {
        assert(slot_ticked(before[i], mid[i], i < ran));
    }
}

/// The trace after one more processor has run.
proof fn lemma_trace_step<T, F: Fn(T, T) -> T>(
    plus: F,
    slots: Seq<Slot>,
    speeds: Map<Entity, Speed<T>>,
    found: Seq<Map<Entity, Position<T>>>,
    trace: Seq<Map<Entity, Position<T>>>,
    ran: nat,
)
    requires
        ran < slots.len(),
        positions_traced(plus, slots, speeds, found, ran),
        trace.len() == found.len() + 1,
        trace.drop_last() == found,
        positions_after(plus, slots[ran as int].processor, speeds, found[ran as int], trace.last()),
    ensures
        positions_traced(plus, slots, speeds, trace, ran + 1),
{
    assert forall|i: int| 0 <= i < ran + 1 implies positions_after(
        plus,
        (#[trigger] slots[i]).processor,
        speeds,
        trace[i],
        trace[i + 1],
    ) by {
        if i < ran {
            assert(trace[i] == found[i] && trace[i + 1] == found[i + 1]);
        } else {
            assert(trace[i] == found[i]);
        }
    }
}

/// The frames after one more processor has run: one more frame where it
/// was a render processor, which shows that processor's state and the
/// positions it found.
proof fn lemma_frames_step<T>(
    slots: Seq<Slot>,
    shown: Seq<Frame<T>>,
    frames: Seq<Frame<T>>,
    ran: nat,
    walk: Seq<Entity>,
    found: Seq<Map<Entity, Position<T>>>,
    trace: Seq<Map<Entity, Position<T>>>,
)
    requires
        ran < slots.len(),
        found.len() == ran + 1,
        trace.len() == found.len() + 1,
        trace.drop_last() == found,
        frames_ticked(slots, shown, ran, walk, found),
        match slots[ran as int].processor {
            Processor::Render(r) => frames.len() == shown.len() + 1 && frames.last().shows(
                r,
                records(walk, found[ran as int]),
            ) && frames.drop_last() == shown,
            Processor::Update(_) => frames == shown,
        },
    ensures
        frames_ticked(slots, frames, ran + 1, walk, trace),
{
    assert forall|i: int| 0 <= i < ran + 1 implies ((#[trigger] slots[i]).processor matches Processor::Render(
        r,
    ) ==> frames[renders_before(slots, i as nat) as int].shows(r, records(walk, trace[i]))) by {
        assert(trace[i] == found[i]);
        if i < ran {
            if slots[i].processor is Render {
                lemma_renders_monotonic(slots, (i + 1) as nat, ran);
                let k = renders_before(slots, i as nat) as int;
                assert(k < shown.len());
                assert(frames[k] == shown[k]) by {
                    if slots[ran as int].processor is Render {
                        assert(frames.drop_last()[k] == frames[k]);
                    }
                }
            }
        }
    }
}

/// The count of render processors among the first slots grows with the
/// number of slots counted.
proof fn lemma_renders_monotonic(slots: Seq<Slot>, i: nat, j: nat)
    requires
        i <= j,
    ensures
        renders_before(slots, i) <= renders_before(slots, j),
    decreases j,
{
    if i < j {
        lemma_renders_monotonic(slots, i, (j - 1) as nat);
    }
}

} // verus!
