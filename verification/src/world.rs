//! The world: the owner of every component storage and of the entities.

use crate::components::{Mesh, Position, Speed, Sphere};
use crate::entity::Entity;
use crate::storage::{swap_removed, HashMapStorage, VecStorage};
use vstd::prelude::*;

verus! {

/// The component types a world can hold.
#[derive(Clone, Copy, Debug, PartialEq, Eq, Structural)]
pub enum ComponentKind {
    Position,
    Speed,
    Mesh,
    Sphere,
}

/// A component type was read or written before it was registered.
#[derive(Clone, Copy, Debug, PartialEq, Eq, Structural)]
pub struct RegistrationError {
    pub component: ComponentKind,
}

/// Whether registering a component type turns the dense storage `before`
/// into `after`: a storage that was there stays, a new one is empty.
pub open spec fn registered<C>(before: Option<VecStorage<C>>, after: Option<VecStorage<C>>) -> bool {
    match before {
        Some(s) => after == Some(s),
        None => {
            &&& after matches Some(s)
            &&& s.wf()
            &&& s@ == Map::<Entity, C>::empty()
            &&& s.entities() == Seq::<Entity>::empty()
        },
    }
}

/// Whether registering a component type turns the sparse storage `before`
/// into `after`: a storage that was there stays, a new one is empty.
pub open spec fn registered_sparse<C>(
    before: Option<HashMapStorage<C>>,
    after: Option<HashMapStorage<C>>,
) -> bool {
    match before {
        Some(s) => after == Some(s),
        None => {
            &&& after matches Some(s)
            &&& s.wf()
            &&& s@ == Map::<Entity, C>::empty()
            &&& s.entities() == Seq::<Entity>::empty()
        },
    }
}

/// Owns one storage for each registered component type, and the entities.
///
/// Positions, speeds and meshes are stored densely, spheres sparsely.
/// `T` is the number type of position and speed coordinates.
pub struct World<T> {
    alive: Vec<bool>,
    positions: Option<VecStorage<Position<T>>>,
    speeds: Option<VecStorage<Speed<T>>>,
    meshes: Option<VecStorage<Mesh>>,
    spheres: Option<HashMapStorage<Sphere>>,
}

impl<T> World<T> {
    /// The storage of positions, once registered.
    pub closed spec fn positions(&self) -> Option<VecStorage<Position<T>>> {
        self.positions
    }

    /// The storage of speeds, once registered.
    pub closed spec fn speeds(&self) -> Option<VecStorage<Speed<T>>> {
        self.speeds
    }

    /// The storage of meshes, once registered.
    pub closed spec fn meshes(&self) -> Option<VecStorage<Mesh>> {
        self.meshes
    }

    /// The storage of spheres, once registered.
    pub closed spec fn spheres(&self) -> Option<HashMapStorage<Sphere>> {
        self.spheres
    }

    /// How many entities were ever created.
    pub closed spec fn created(&self) -> nat {
        self.alive@.len()
    }

    /// Whether `entity` was created here and not destroyed since.
    pub closed spec fn alive(&self, entity: Entity) -> bool {
        entity.id() < self.alive@.len() && self.alive@[entity.id() as int]
    }

    /// The world's invariant: every registered storage is well formed.
    pub open spec fn wf(&self) -> bool {
        &&& self.positions() matches Some(s) ==> s.wf()
        &&& self.speeds() matches Some(s) ==> s.wf()
        &&& self.meshes() matches Some(s) ==> s.wf()
        &&& self.spheres() matches Some(s) ==> s.wf()
    }

    /// Whether some storage holds a component of `entity`.
    pub open spec fn holds(&self, entity: Entity) -> bool {
        ||| self.positions() matches Some(s) && s@.contains_key(entity)
        ||| self.speeds() matches Some(s) && s@.contains_key(entity)
        ||| self.meshes() matches Some(s) && s@.contains_key(entity)
        ||| self.spheres() matches Some(s) && s@.contains_key(entity)
    }

    /// Whether `other` has the same entities as this world.
    pub open spec fn same_entities(&self, other: &Self) -> bool {
        &&& self.created() == other.created()
        &&& forall|e: Entity| self.alive(e) == other.alive(e)
    }

    /// A world without entities and without registered component types.
    pub fn new() -> (w: Self)
        ensures
            w.wf(),
            w.created() == 0,
            forall|e: Entity| !w.alive(e),
            w.positions() is None,
            w.speeds() is None,
            w.meshes() is None,
            w.spheres() is None,
    {
        World { alive: Vec::new(), positions: None, speeds: None, meshes: None, spheres: None }
    }

    /// Registers positions: gives them an empty storage, unless they have one.
    pub fn register_positions(&mut self)
        ensures
            old(self).positions() is Some ==> *final(self) == *old(self),
            registered(old(self).positions(), final(self).positions()),
            final(self).speeds() == old(self).speeds(),
            final(self).meshes() == old(self).meshes(),
            final(self).spheres() == old(self).spheres(),
            final(self).same_entities(old(self)),
    {
        if self.positions.is_none() {
            self.positions = Some(VecStorage::new());
        }
    }

    /// Registers speeds: gives them an empty storage, unless they have one.
    pub fn register_speeds(&mut self)
        ensures
            old(self).speeds() is Some ==> *final(self) == *old(self),
            registered(old(self).speeds(), final(self).speeds()),
            final(self).positions() == old(self).positions(),
            final(self).meshes() == old(self).meshes(),
            final(self).spheres() == old(self).spheres(),
            final(self).same_entities(old(self)),
    {
        if self.speeds.is_none() {
            self.speeds = Some(VecStorage::new());
        }
    }

    /// Registers meshes: gives them an empty storage, unless they have one.
    pub fn register_meshes(&mut self)
        ensures
            old(self).meshes() is Some ==> *final(self) == *old(self),
            registered(old(self).meshes(), final(self).meshes()),
            final(self).positions() == old(self).positions(),
            final(self).speeds() == old(self).speeds(),
            final(self).spheres() == old(self).spheres(),
            final(self).same_entities(old(self)),
    {
        if self.meshes.is_none() {
            self.meshes = Some(VecStorage::new());
        }
    }

    /// Registers spheres: gives them an empty storage, unless they have one.
    pub fn register_spheres(&mut self)
        ensures
            old(self).spheres() is Some ==> *final(self) == *old(self),
            registered_sparse(old(self).spheres(), final(self).spheres()),
            final(self).positions() == old(self).positions(),
            final(self).speeds() == old(self).speeds(),
            final(self).meshes() == old(self).meshes(),
            final(self).same_entities(old(self)),
    {
        if self.spheres.is_none() {
            self.spheres = Some(HashMapStorage::new());
        }
    }

    /// The storage of positions, for reading.
    pub fn read_positions(&self) -> (r: Result<&VecStorage<Position<T>>, RegistrationError>)
        ensures
            match r {
                Ok(s) => self.positions() == Some(*s),
                Err(e) => self.positions() is None && e.component == ComponentKind::Position,
            },
    {
        match &self.positions {
            Some(s) => Ok(s),
            None => Err(RegistrationError { component: ComponentKind::Position }),
        }
    }

    /// The storage of speeds, for reading.
    pub fn read_speeds(&self) -> (r: Result<&VecStorage<Speed<T>>, RegistrationError>)
        ensures
            match r {
                Ok(s) => self.speeds() == Some(*s),
                Err(e) => self.speeds() is None && e.component == ComponentKind::Speed,
            },
    {
        match &self.speeds {
            Some(s) => Ok(s),
            None => Err(RegistrationError { component: ComponentKind::Speed }),
        }
    }

    /// The storage of meshes, for reading.
    pub fn read_meshes(&self) -> (r: Result<&VecStorage<Mesh>, RegistrationError>)
        ensures
            match r {
                Ok(s) => self.meshes() == Some(*s),
                Err(e) => self.meshes() is None && e.component == ComponentKind::Mesh,
            },
    {
        match &self.meshes {
            Some(s) => Ok(s),
            None => Err(RegistrationError { component: ComponentKind::Mesh }),
        }
    }

    /// The storage of spheres, for reading.
    pub fn read_spheres(&self) -> (r: Result<&HashMapStorage<Sphere>, RegistrationError>)
        ensures
            match r {
                Ok(s) => self.spheres() == Some(*s),
                Err(e) => self.spheres() is None && e.component == ComponentKind::Sphere,
            },
    {
        match &self.spheres {
            Some(s) => Ok(s),
            None => Err(RegistrationError { component: ComponentKind::Sphere }),
        }
    }

    /// The storage of positions, for writing. Nothing else in the world
    /// changes through the borrow.
    pub fn write_positions(&mut self) -> (r: Result<
        &mut VecStorage<Position<T>>,
        RegistrationError,
    >)
        ensures
            match r {
                Ok(s) => old(self).positions() == Some(*s) && final(self).positions() == Some(
                    *final(s),
                ),
                Err(e) => old(self).positions() is None && e.component == ComponentKind::Position
                    && final(self).positions() is None,
            },
            final(self).speeds() == old(self).speeds(),
            final(self).meshes() == old(self).meshes(),
            final(self).spheres() == old(self).spheres(),
            final(self).same_entities(old(self)),
    {
        match &mut self.positions {
            Some(s) => Ok(s),
            None => Err(RegistrationError { component: ComponentKind::Position }),
        }
    }

    /// The storage of speeds, for writing. Nothing else in the world
    /// changes through the borrow.
    pub fn write_speeds(&mut self) -> (r: Result<&mut VecStorage<Speed<T>>, RegistrationError>)
        ensures
            match r {
                Ok(s) => old(self).speeds() == Some(*s) && final(self).speeds() == Some(*final(s)),
                Err(e) => old(self).speeds() is None && e.component == ComponentKind::Speed
                    && final(self).speeds() is None,
            },
            final(self).positions() == old(self).positions(),
            final(self).meshes() == old(self).meshes(),
            final(self).spheres() == old(self).spheres(),
            final(self).same_entities(old(self)),
    {
        match &mut self.speeds {
            Some(s) => Ok(s),
            None => Err(RegistrationError { component: ComponentKind::Speed }),
        }
    }

    /// The storage of meshes, for writing. Nothing else in the world
    /// changes through the borrow.
    pub fn write_meshes(&mut self) -> (r: Result<&mut VecStorage<Mesh>, RegistrationError>)
        ensures
            match r {
                Ok(s) => old(self).meshes() == Some(*s) && final(self).meshes() == Some(*final(s)),
                Err(e) => old(self).meshes() is None && e.component == ComponentKind::Mesh
                    && final(self).meshes() is None,
            },
            final(self).positions() == old(self).positions(),
            final(self).speeds() == old(self).speeds(),
            final(self).spheres() == old(self).spheres(),
            final(self).same_entities(old(self)),
    {
        match &mut self.meshes {
            Some(s) => Ok(s),
            None => Err(RegistrationError { component: ComponentKind::Mesh }),
        }
    }

    /// The storage of spheres, for writing. Nothing else in the world
    /// changes through the borrow.
    pub fn write_spheres(&mut self) -> (r: Result<&mut HashMapStorage<Sphere>, RegistrationError>)
        ensures
            match r {
                Ok(s) => old(self).spheres() == Some(*s) && final(self).spheres() == Some(
                    *final(s),
                ),
                Err(e) => old(self).spheres() is None && e.component == ComponentKind::Sphere
                    && final(self).spheres() is None,
            },
            final(self).positions() == old(self).positions(),
            final(self).speeds() == old(self).speeds(),
            final(self).meshes() == old(self).meshes(),
            final(self).same_entities(old(self)),
    {
        match &mut self.spheres {
            Some(s) => Ok(s),
            None => Err(RegistrationError { component: ComponentKind::Sphere }),
        }
    }

    /// Creates an entity: a handle that no entity of this world ever had.
    pub fn create_entity(&mut self) -> (e: Entity)
        ensures
            e.id() == old(self).created(),
            !old(self).alive(e),
            final(self).alive(e),
            final(self).created() == old(self).created() + 1,
            forall|o: Entity| o != e ==> final(self).alive(o) == old(self).alive(o),
            final(self).positions() == old(self).positions(),
            final(self).speeds() == old(self).speeds(),
            final(self).meshes() == old(self).meshes(),
            final(self).spheres() == old(self).spheres(),
    {
        let e = Entity::new(self.alive.len());
        self.alive.push(true);
        proof {
            Entity::lemma_id_injective();
        }
        e
    }

    /// Destroys `entity`: takes it out of every storage and ends its life.
    /// Its handle is not handed out again.
    pub fn destroy_entity(&mut self, entity: Entity)
        requires
            old(self).wf(),
        ensures
            final(self).wf(),
            !final(self).holds(entity),
            !final(self).alive(entity),
            final(self).created() == old(self).created(),
            forall|o: Entity| o != entity ==> final(self).alive(o) == old(self).alive(o),
            match (old(self).positions(), final(self).positions()) {
                (Some(before), Some(after)) => after@ == before@.remove(entity)
                    && after.entities() == before.entities().remove_value(entity),
                (None, None) => true,
                _ => false,
            },
            match (old(self).speeds(), final(self).speeds()) {
                (Some(before), Some(after)) => after@ == before@.remove(entity)
                    && after.entities() == before.entities().remove_value(entity),
                (None, None) => true,
                _ => false,
            },
            match (old(self).meshes(), final(self).meshes()) {
                (Some(before), Some(after)) => after@ == before@.remove(entity)
                    && after.entities() == before.entities().remove_value(entity),
                (None, None) => true,
                _ => false,
            },
            match (old(self).spheres(), final(self).spheres()) {
                (Some(before), Some(after)) => after@ == before@.remove(entity)
                    && after.entities() == swap_removed(before.entities(), entity),
                (None, None) => true,
                _ => false,
            },
    {
        match &mut self.positions {
            Some(s) => {
                s.remove(entity);
            },
            None => {},
        }
        match &mut self.speeds {
            Some(s) => {
                s.remove(entity);
            },
            None => {},
        }
        match &mut self.meshes {
            Some(s) => {
                s.remove(entity);
            },
            None => {},
        }
        match &mut self.spheres {
            Some(s) => {
                s.remove(entity);
            },
            None => {},
        }
        let id = entity.id();
        if id < self.alive.len() {
            self.alive[id] = false;
        }
        proof {
            Entity::lemma_id_injective();
        }
    }

    /// Whether `entity` was created here and not destroyed since.
    pub fn is_alive(&self, entity: Entity) -> (b: bool)
        ensures
            b == self.alive(entity),
    {
        let id = entity.id();
        id < self.alive.len() && self.alive[id]
    }
}

} // verus!
