//! The processors: the update of positions and the submission of draws.

use crate::components::{moved, Mesh, Position, Speed};
use crate::entity::Entity;
use crate::join::{join, joined, lemma_join_is_intersection};
use crate::storage::VecStorage;
use crate::world::{ComponentKind, RegistrationError, World};
use vstd::prelude::*;

verus! {

/// Whether `after` holds the positions of `before` one tick later: every
/// entity that also has a speed is moved by it, every other is as it was.
pub open spec fn stepped<T, F: Fn(T, T) -> T>(
    plus: F,
    before: Map<Entity, Position<T>>,
    speeds: Map<Entity, Speed<T>>,
    after: Map<Entity, Position<T>>,
) -> bool {
    &&& after.dom() == before.dom()
    &&& forall|e: Entity| #[trigger]
        before.contains_key(e) ==> if speeds.contains_key(e) {
            moved(plus, before[e], speeds[e], after[e])
        } else {
            after[e] == before[e]
        }
}

/// Moves every entity that has a position and a speed.
#[derive(Debug)]
pub struct Update;

impl Update {
    /// One tick: adds to each position the speed of the same entity.
    ///
    /// Fails, and changes nothing, when positions or speeds are not
    /// registered; positions are looked for first.
    pub fn run<T: Copy, F: Fn(T, T) -> T>(&mut self, world: &mut World<T>, plus: &F) -> (r: Result<
        (),
        RegistrationError,
    >)
        requires
            old(world).wf(),
            forall|a: T, b: T| call_requires(*plus, (a, b)),
        ensures
            final(world).wf(),
            final(world).speeds() == old(world).speeds(),
            final(world).meshes() == old(world).meshes(),
            final(world).spheres() == old(world).spheres(),
            final(world).same_entities(old(world)),
            match r {
                Ok(_) => {
                    &&& old(world).positions() matches Some(before)
                    &&& old(world).speeds() matches Some(speeds)
                    &&& final(world).positions() matches Some(after)
                    &&& after.entities() == before.entities()
                    &&& stepped(*plus, before@, speeds@, after@)
                },
                Err(e) => {
                    &&& final(world).positions() == old(world).positions()
                    &&& if old(world).positions() is None {
                        e.component == ComponentKind::Position
                    } else {
                        old(world).speeds() is None && e.component == ComponentKind::Speed
                    }
                },
            },
    {
        let both = {
            let positions = match world.read_positions() {
                Ok(p) => p,
                Err(e) => {
                    return Err(e);
                },
            };
            let speeds = match world.read_speeds() {
                Ok(s) => s,
                Err(e) => {
                    return Err(e);
                },
            };
            proof {
                lemma_join_is_intersection((positions, speeds));
            }
            join((positions, speeds))
        };
        let ghost before = old(world).positions().unwrap();
        let ghost speeds = old(world).speeds().unwrap();
        let mut i: usize = 0;
        while i < both.len()
            invariant
                i <= both@.len(),
                forall|a: T, b: T| call_requires(*plus, (a, b)),
                both@.no_duplicates(),
                both@.to_set() == before@.dom().intersect(speeds@.dom()),
                before.wf(),
                old(world).positions() == Some(before),
                world.wf(),
                world.speeds() == Some(speeds),
                world.meshes() == old(world).meshes(),
                world.spheres() == old(world).spheres(),
                world.same_entities(old(world)),
                world.positions() matches Some(now) && now.entities() == before.entities()
                    && now@.dom() == before@.dom() && forall|e: Entity| #[trigger]
                    before@.contains_key(e) ==> if exists|j: int| 0 <= j < i && both@[j] == e {
                        moved(*plus, before@[e], speeds@[e], now@[e])
                    } else {
                        now@[e] == before@[e]
                    },
            decreases both@.len() - i,
        {
            let e = both[i];
            let ghost prev = world.positions().unwrap();
            proof {
                assert(both@.to_set().contains(e));
                assert(!(exists|j: int| 0 <= j < i && both@[j] == e));
            }
            let speed = match world.read_speeds() {
                Ok(s) => match s.get(e) {
                    Some(v) => Some(*v),
                    None => None,
                },
                Err(_) => None,
            };
            if let Some(speed) = speed {
                if let Ok(positions) = world.write_positions() {
                    if let Some(p) = positions.get_mut(e) {
                        p.add_speed(&speed, plus);
                    }
                }
            }
            i = i + 1;
            proof {
                let now = world.positions().unwrap();
                assert(now@.dom() =~= before@.dom());
                assert forall|o: Entity| #[trigger] before@.contains_key(o) implies if exists|j: int|
                    0 <= j < i && both@[j] == o {
                    moved(*plus, before@[o], speeds@[o], now@[o])
                } else {
                    now@[o] == before@[o]
                } by {
                    if o == e {
                        assert(0 <= i - 1 < i && both@[i - 1] == o);
                    } else {
                        assert(now@[o] == prev@[o]);
                        if exists|j: int| 0 <= j < i && both@[j] == o {
                            let j = choose|j: int| 0 <= j < i && both@[j] == o;
                            assert(0 <= j < i - 1 && both@[j] == o);
                        }
                    }
                }
            }
        }
        proof {
            let now = world.positions().unwrap();
            assert forall|e: Entity| #[trigger] before@.contains_key(e) implies if speeds@.contains_key(
                e,
            ) {
                moved(*plus, before@[e], speeds@[e], now@[e])
            } else {
                now@[e] == before@[e]
            } by {
                if speeds@.contains_key(e) {
                    assert(both@.to_set().contains(e));
                    assert(both@.contains(e));
                    let j = choose|j: int| 0 <= j < both@.len() && both@[j] == e;
                    assert(0 <= j < i && both@[j] == e);
                } else {
                    if exists|j: int| 0 <= j < i && both@[j] == e {
                        let j = choose|j: int| 0 <= j < i && both@[j] == e;
                        assert(both@.to_set().contains(both@[j]));
                    }
                }
            }
        }
        Ok(())
    }
}

/// One pass of the draw pipeline.
#[derive(Clone, Copy, Debug, PartialEq, Eq, Structural)]
pub enum Pass {
    /// Clears the target to opaque black.
    Clear,
    /// Draws the scene, shaded, as the camera sees it.
    DrawShaded,
}

/// The fixed draw pipeline: a clear pass, then a shaded draw pass.
pub open spec fn pipeline() -> Seq<Pass> {
    seq![Pass::Clear, Pass::DrawShaded]
}

/// One draw record: an entity to draw, and its position when the render
/// processor ran.
#[derive(Clone, Copy, Debug, PartialEq)]
pub struct Draw<T> {
    pub entity: Entity,
    pub position: Position<T>,
}

/// What one run of the render processor asks of the renderer.
#[derive(Debug)]
pub struct Frame<T> {
    /// The number of this frame, counted from one.
    pub number: u32,
    /// The pipeline to set up before drawing, on the first frame only.
    pub pipeline: Option<Vec<Pass>>,
    /// The draw records, one for each entity to draw, in join order.
    pub draws: Vec<Draw<T>>,
}

impl<T> Frame<T> {
    /// Whether this frame is the one that a run of `render` gives when
    /// `draws` are the records to submit.
    pub open spec fn shows(&self, render: Render, draws: Seq<Draw<T>>) -> bool {
        &&& self.number == render.frame_count() + 1
        &&& self.draws@ == draws
        &&& match self.pipeline {
            Some(passes) => render.pending() && passes@ == pipeline(),
            None => !render.pending(),
        }
    }
}

/// The entities a render run draws: those with a position and a mesh.
pub open spec fn drawn<T>(positions: VecStorage<Position<T>>, meshes: VecStorage<Mesh>) -> Seq<
    Entity,
> {
    joined((positions, meshes))
}

/// The draw records of the entities of `walk`: each entity with the
/// position that `positions` holds for it.
pub open spec fn records<T>(walk: Seq<Entity>, positions: Map<Entity, Position<T>>) -> Seq<
    Draw<T>,
> {
    Seq::new(walk.len(), |i: int| Draw { entity: walk[i], position: positions[walk[i]] })
}

/// How many of `runs` successive runs, the first of them starting from
/// `render`, set the pipeline up.
pub open spec fn setups(render: Render, runs: nat) -> nat
    decreases runs,
{
    if runs == 0 {
        0
    } else {
        (if render.pending() {
            1nat
        } else {
            0nat
        }) + setups(render.ran(), (runs - 1) as nat)
    }
}

/// The render processor that `render` is after `runs` runs.
pub open spec fn after_runs(render: Render, runs: nat) -> Render
    decreases runs,
{
    if runs == 0 {
        render
    } else {
        after_runs(render, (runs - 1) as nat).ran()
    }
}

/// A processor whose setup is done sets the pipeline up in no later run.
pub proof fn lemma_no_setup_when_done(render: Render, runs: nat)
    requires
        !render.pending(),
    ensures
        setups(render, runs) == 0,
    decreases runs,
{
    if runs > 0 {
        render.lemma_ran();
        lemma_no_setup_when_done(render.ran(), (runs - 1) as nat);
    }
}

/// Over any number of runs, one at least, of a processor whose setup is
/// pending, as it is in a new one, the pipeline is set up exactly once.
pub proof fn lemma_pipeline_set_up_once(render: Render, runs: nat)
    requires
        render.pending(),
        runs >= 1,
    ensures
        setups(render, runs) == 1,
{
    render.lemma_ran();
    lemma_no_setup_when_done(render.ran(), (runs - 1) as nat);
}

/// Every run counts exactly one frame: after `runs` runs the counter
/// stands that many higher, as far as it can count.
pub proof fn lemma_frames_counted(render: Render, runs: nat)
    requires
        render.frame_count() + runs <= u32::MAX,
    ensures
        after_runs(render, runs).frame_count() == render.frame_count() + runs,
    decreases runs,
{
    if runs > 0 {
        lemma_frames_counted(render, (runs - 1) as nat);
        after_runs(render, (runs - 1) as nat).lemma_ran();
    }
}

/// Submits one draw record for every entity with a position and a mesh,
/// and counts the frames.
#[derive(Debug)]
pub struct Render {
    frame_count: u32,
    init: bool,
}

impl Render {
    /// The number of frames rendered so far, in specifications.
    pub closed spec fn spec_frame_count(&self) -> u32 {
        self.frame_count
    }

    /// Whether the pipeline is still to be set up, in specifications.
    pub closed spec fn spec_pending(&self) -> bool {
        self.init
    }

    /// This processor after one run that succeeded.
    pub closed spec fn ran(self) -> Render {
        Render { frame_count: (self.frame_count + 1) as u32, init: false }
    }

    /// What a run does to the processor: it counts one frame, and the
    /// setup is pending no longer.
    pub proof fn lemma_ran(self)
        ensures
            !self.ran().pending(),
            self.frame_count() < u32::MAX ==> self.ran().frame_count() == self.frame_count() + 1,
    {
    }

    /// A render processor that has drawn nothing and set up nothing yet.
    pub fn new() -> (r: Render)
        ensures
            r.frame_count() == 0,
            r.pending(),
    {
        Render { frame_count: 0, init: true }
    }

    /// The number of frames rendered so far.
    #[verifier::when_used_as_spec(spec_frame_count)]
    pub fn frame_count(&self) -> (n: u32)
        ensures
            n == self.spec_frame_count(),
    {
        self.frame_count
    }

    /// Whether the pipeline is still to be set up.
    #[verifier::when_used_as_spec(spec_pending)]
    pub fn pending(&self) -> (b: bool)
        ensures
            b == self.spec_pending(),
    {
        self.init
    }

    /// The pipeline that the first run hands to the renderer.
    fn init(&self) -> (passes: Vec<Pass>)
        ensures
            passes@ == pipeline(),
    {
        let mut passes: Vec<Pass> = Vec::new();
        passes.push(Pass::Clear);
        passes.push(Pass::DrawShaded);
        assert(passes@ =~= pipeline());
        passes
    }

    /// The draw records of `world` as it stands: one for each entity with
    /// a position and a mesh, none for any other, none twice, each with
    /// the entity's position.
    ///
    /// Fails when positions or meshes are not registered; positions are
    /// looked for first.
    pub fn draws<T: Copy>(world: &World<T>) -> (r: Result<Vec<Draw<T>>, RegistrationError>)
        requires
            world.wf(),
        ensures
            match r {
                Ok(draws) => {
                    &&& world.positions() matches Some(positions)
                    &&& world.meshes() matches Some(meshes)
                    &&& draws@ == records(drawn(positions, meshes), positions@)
                },
                Err(e) => if world.positions() is None {
                    e.component == ComponentKind::Position
                } else {
                    world.meshes() is None && e.component == ComponentKind::Mesh
                },
            },
    {
        let positions = match world.read_positions() {
            Ok(p) => p,
            Err(e) => {
                return Err(e);
            },
        };
        let meshes = match world.read_meshes() {
            Ok(m) => m,
            Err(e) => {
                return Err(e);
            },
        };
        proof {
            lemma_join_is_intersection((positions, meshes));
        }
        let both = join((positions, meshes));
        let mut draws: Vec<Draw<T>> = Vec::new();
        let mut i: usize = 0;
        while i < both.len()
            invariant
                i <= both@.len(),
                both@.to_set() == positions@.dom().intersect(meshes@.dom()),
                draws@.len() == i,
                forall|k: int|
                    0 <= k < i ==> draws@[k] == (Draw {
                        entity: both@[k],
                        position: positions@[both@[k]],
                    }),
            decreases both@.len() - i,
        {
            let entity = both[i];
            proof {
                assert(both@.to_set().contains(entity));
            }
            match positions.get(entity) {
                Some(p) => {
                    draws.push(Draw { entity, position: *p });
                },
                None => {},
            }
            i = i + 1;
        }
        assert(draws@ =~= records(both@, positions@));
        Ok(draws)
    }

    /// One tick: the frame to render.
    ///
    /// The first run that succeeds carries the pipeline, no later one
    /// does. Every run that succeeds counts one frame, however many
    /// entities it draws. A run fails, and leaves the processor as it was,
    /// when positions or meshes are not registered; positions are looked
    /// for first.
    pub fn run<T: Copy>(&mut self, world: &World<T>) -> (r: Result<Frame<T>, RegistrationError>)
        requires
            world.wf(),
            old(self).frame_count() < u32::MAX,
        ensures
            match r {
                Ok(frame) => {
                    &&& world.positions() matches Some(positions)
                    &&& world.meshes() matches Some(meshes)
                    &&& frame.shows(*old(self), records(drawn(positions, meshes), positions@))
                    &&& *final(self) == old(self).ran()
                    &&& final(self).frame_count() == old(self).frame_count() + 1
                    &&& !final(self).pending()
                },
                Err(e) => {
                    &&& *final(self) == *old(self)
                    &&& if world.positions() is None {
                        e.component == ComponentKind::Position
                    } else {
                        world.meshes() is None && e.component == ComponentKind::Mesh
                    }
                },
            },
    {
        let draws = match Self::draws(world) {
            Ok(d) => d,
            Err(e) => {
                return Err(e);
            },
        };
        let pipeline = if self.init {
            self.init = false;
            Some(self.init())
        } else {
            None
        };
        self.frame_count = self.frame_count + 1;
        Ok(Frame { number: self.frame_count, pipeline, draws })
    }
}

} // verus!
