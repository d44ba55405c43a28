//! Component storages: one container per component type, keyed by entity.

use crate::entity::Entity;
use std::collections::HashMap;
use vstd::prelude::*;

verus! {

broadcast use vstd::std_specs::hash::group_hash_axioms;

/// Dense storage: a backing array indexed by the entity's slot number.
///
/// Suited to components that most entities carry. Entities are walked in
/// the order in which they first received the component.
pub struct VecStorage<T> {
    slots: Vec<Option<T>>,
    order: Vec<Entity>,
}

impl<T> View for VecStorage<T> {
    type V = Map<Entity, T>;

    /// The component value of each entity that holds one.
    closed spec fn view(&self) -> Map<Entity, T> {
        Map::new(
            |e: Entity| e.id() < self.slots@.len() && self.slots@[e.id() as int] is Some,
            |e: Entity| self.slots@[e.id() as int].unwrap(),
        )
    }
}

impl<T> VecStorage<T> {
    /// The entities that hold a component, in insertion order.
    pub closed spec fn entities(&self) -> Seq<Entity> {
        self.order@
    }

    /// The storage's invariant: the walk order lists each holder once.
    pub closed spec fn wf(&self) -> bool {
        &&& self.order@.no_duplicates()
        &&& forall|e: Entity| #[trigger] self.order@.contains(e) <==> self@.contains_key(e)
    }

    /// What the invariant says of the walk order.
    pub proof fn lemma_entities(&self)
        requires
            self.wf(),
        ensures
            self.entities().no_duplicates(),
            forall|e: Entity| #[trigger] self.entities().contains(e) <==> self@.contains_key(e),
            self.entities().to_set() == self@.dom(),
            self@.dom().finite(),
            self@.dom().len() == self.entities().len(),
    {
        assert(self.entities().to_set() =~= self@.dom());
        self.entities().unique_seq_to_set();
    }

    /// Taking away what is not there changes nothing.
    proof fn lemma_absent(&self, entity: Entity)
        requires
            self.wf(),
            !self@.contains_key(entity),
        ensures
            self@.remove(entity) == self@,
            self.entities().remove_value(entity) == self.entities(),
    {
        assert(self@.remove(entity) =~= self@);
        assert(!self.order@.contains(entity));
        self.order@.index_of_first_ensures(entity);
    }

    /// An empty storage.
    pub fn new() -> (s: Self)
        ensures
            s.wf(),
            s@ == Map::<Entity, T>::empty(),
            s.entities() == Seq::<Entity>::empty(),
    {
        let s = VecStorage { slots: Vec::new(), order: Vec::new() };
        assert(s@ =~= Map::<Entity, T>::empty());
        s
    }

    /// Whether `entity` holds a component here.
    pub fn contains(&self, entity: Entity) -> (b: bool)
        ensures
            b == self@.contains_key(entity),
    {
        let idx = entity.id();
        idx < self.slots.len() && self.slots[idx].is_some()
    }

    /// The component of `entity`, if it holds one.
    pub fn get(&self, entity: Entity) -> (r: Option<&T>)
        ensures
            match r {
                Some(v) => self@.contains_key(entity) && *v == self@[entity],
                None => !self@.contains_key(entity),
            },
    {
        let idx = entity.id();
        if idx < self.slots.len() {
            self.slots[idx].as_ref()
        } else {
            None
        }
    }

    /// The component of `entity`, for writing, if it holds one.
    pub fn get_mut(&mut self, entity: Entity) -> (r: Option<&mut T>)
        requires
            old(self).wf(),
        ensures
            final(self).wf(),
            final(self).entities() == old(self).entities(),
            match r {
                Some(v) => old(self)@.contains_key(entity) && *v == old(self)@[entity]
                    && final(self)@ == old(self)@.insert(entity, *final(v)),
                None => !old(self)@.contains_key(entity) && final(self)@ == old(self)@,
            },
    {
        let idx = entity.id();
        if idx < self.slots.len() {
            let r = self.slots[idx].as_mut();
            proof {
                Entity::lemma_id_injective();
            }
            r
        } else {
            None
        }
    }

    /// The number of entities that hold a component here.
    pub fn len(&self) -> (n: usize)
        ensures
            n == self.entities().len(),
    {
        self.order.len()
    }

    /// The `i`-th entity of the walk order.
    pub fn entity_at(&self, i: usize) -> (e: Entity)
        requires
            i < self.entities().len(),
        ensures
            e == self.entities()[i as int],
    {
        self.order[i]
    }

    /// Gives `entity` the component `value`, replacing the one it held.
    pub fn insert(&mut self, entity: Entity, value: T)
        requires
            old(self).wf(),
        ensures
            final(self).wf(),
            final(self)@ == old(self)@.insert(entity, value),
            final(self).entities() == if old(self)@.contains_key(entity) {
                old(self).entities()
            } else {
                old(self).entities().push(entity)
            },
    {
        let idx = entity.id();
        while self.slots.len() <= idx
            invariant
                self.order == old(self).order,
                old(self).slots@.len() <= self.slots@.len(),
                forall|i: int| 0 <= i < old(self).slots@.len() ==> self.slots@[i] == old(self).slots@[i],
                forall|i: int| old(self).slots@.len() <= i < self.slots@.len() ==> self.slots@[i] is None,
            decreases idx + 1 - self.slots@.len(),
        {
            self.slots.push(None);
        }
        let fresh = self.slots[idx].is_none();
        self.slots[idx] = Some(value);
        if fresh {
            self.order.push(entity);
        }
        proof {
            Entity::lemma_id_injective();
            assert(self@ =~= old(self)@.insert(entity, value));
            assert(fresh <==> !old(self)@.contains_key(entity));
            assert(old(self).order@.contains(entity) <==> old(self)@.contains_key(entity));
            assert forall|j: int, k: int| 0 <= j < k < self.order@.len() implies self.order@[j]
                != self.order@[k] by {
                if fresh && k == old(self).order@.len() {
                    assert(old(self).order@[j] == self.order@[j]);
                }
            }
            assert forall|e: Entity| #[trigger]
                self.order@.contains(e) <==> self@.contains_key(e) by {
                assert(old(self).order@.contains(e) <==> old(self)@.contains_key(e));
                if fresh {
                    if e == entity {
                        assert(self.order@[self.order@.len() - 1] == entity);
                    } else if old(self).order@.contains(e) {
                        let i = choose|i: int|
                            0 <= i < old(self).order@.len() && old(self).order@[i] == e;
                        assert(self.order@[i] == e);
                    }
                }
            }
        }
    }

    /// Takes the component of `entity` away and returns it.
    pub fn remove(&mut self, entity: Entity) -> (r: Option<T>)
        requires
            old(self).wf(),
        ensures
            final(self).wf(),
            final(self)@ == old(self)@.remove(entity),
            r == if old(self)@.contains_key(entity) {
                Some(old(self)@[entity])
            } else {
                None
            },
            final(self).entities() == old(self).entities().remove_value(entity),
    {
        let idx = entity.id();
        if idx >= self.slots.len() {
            proof {
                old(self).lemma_absent(entity);
            }
            return None;
        }
        let taken = self.slots[idx].take();
        if taken.is_none() {
            proof {
                assert(self.slots@ =~= old(self).slots@);
                old(self).lemma_absent(entity);
            }
            return None;
        }
        let mut i: usize = 0;
        while i < self.order.len() && self.order[i] != entity
            invariant
                i <= self.order@.len(),
                self.order == old(self).order,
                forall|j: int| 0 <= j < i ==> self.order@[j] != entity,
            decreases self.order@.len() - i,
        {
            i += 1;
        }
        proof {
            Entity::lemma_id_injective();
            assert(old(self).order@.contains(entity));
            assert(i < self.order@.len());
            old(self).order@.index_of_first_ensures(entity);
        }
        self.order.remove(i);
        proof {
            assert(self@ =~= old(self)@.remove(entity));
            let before = old(self).order@;
            let after = self.order@;
            assert forall|j: int, k: int| 0 <= j < k < after.len() implies after[j] != after[k] by {
                let jj = if j < i { j } else { j + 1 };
                let kk = if k < i { k } else { k + 1 };
                assert(after[j] == before[jj] && after[k] == before[kk]);
            }
            assert forall|e: Entity| #[trigger] after.contains(e) <==> self@.contains_key(e) by {
                assert(before.contains(e) <==> old(self)@.contains_key(e));
                if after.contains(e) {
                    let j = choose|j: int| 0 <= j < after.len() && after[j] == e;
                    let jj = if j < i { j } else { j + 1 };
                    assert(before[jj] == e);
                    assert(jj != i);
                }
                if before.contains(e) && e != entity {
                    let j = choose|j: int| 0 <= j < before.len() && before[j] == e;
                    let jj = if j < i { j } else { j - 1 };
                    assert(after[jj] == e);
                }
            }
        }
        taken
    }
}

/// `s` after `e` has left it by trading places with the last element.
pub open spec fn swap_removed(s: Seq<Entity>, e: Entity) -> Seq<Entity> {
    if s.contains(e) {
        s.update(s.index_of(e), s.last()).drop_last()
    } else {
        s
    }
}

/// Sparse storage: component values found through a hash index.
///
/// Suited to components that few entities carry. The order in which
/// entities are walked is insertion order until a removal, which moves the
/// last entity into the place of the one that left.
pub struct HashMapStorage<T> {
    index: HashMap<usize, usize>,
    holders: Vec<Entity>,
    values: Vec<T>,
}

impl<T> View for HashMapStorage<T> {
    type V = Map<Entity, T>;

    /// The component value of each entity that holds one.
    closed spec fn view(&self) -> Map<Entity, T> {
        Map::new(
            |e: Entity| self.index@.contains_key(e.id()),
            |e: Entity| self.values@[self.index@[e.id()] as int],
        )
    }
}

impl<T> HashMapStorage<T> {
    /// The entities that hold a component, in the order they are walked.
    pub closed spec fn entities(&self) -> Seq<Entity> {
        self.holders@
    }

    /// The storage's invariant: the index and the packed arrays agree.
    pub closed spec fn wf(&self) -> bool {
        &&& self.holders@.len() == self.values@.len()
        &&& forall|i: int|
            0 <= i < self.holders@.len() ==> self.index@.contains_key(
                (#[trigger] self.holders@[i]).id(),
            ) && self.index@[self.holders@[i].id()] == i
        &&& forall|k: usize| #[trigger]
            self.index@.contains_key(k) ==> self.index@[k] < self.holders@.len()
                && self.holders@[self.index@[k] as int].id() == k
    }

    /// What the invariant says of the walk order.
    pub proof fn lemma_entities(&self)
        requires
            self.wf(),
        ensures
            self.entities().no_duplicates(),
            forall|e: Entity| #[trigger] self.entities().contains(e) <==> self@.contains_key(e),
            self.entities().to_set() == self@.dom(),
            self@.dom().finite(),
            self@.dom().len() == self.entities().len(),
    {
        Entity::lemma_id_injective();
        assert forall|e: Entity| #[trigger]
            self.entities().contains(e) <==> self@.contains_key(e) by {
            if self@.contains_key(e) {
                assert(self.holders@[self.index@[e.id()] as int] == e);
            }
        }
        assert(self.entities().to_set() =~= self@.dom());
        self.entities().unique_seq_to_set();
    }

    /// An empty storage.
    pub fn new() -> (s: Self)
        ensures
            s.wf(),
            s@ == Map::<Entity, T>::empty(),
            s.entities() == Seq::<Entity>::empty(),
    {
        let s = HashMapStorage { index: HashMap::new(), holders: Vec::new(), values: Vec::new() };
        assert(s@ =~= Map::<Entity, T>::empty());
        s
    }

    /// Whether `entity` holds a component here.
    pub fn contains(&self, entity: Entity) -> (b: bool)
        ensures
            b == self@.contains_key(entity),
    {
        let id = entity.id();
        self.index.contains_key(&id)
    }

    /// The component of `entity`, if it holds one.
    pub fn get(&self, entity: Entity) -> (r: Option<&T>)
        requires
            self.wf(),
        ensures
            match r {
                Some(v) => self@.contains_key(entity) && *v == self@[entity],
                None => !self@.contains_key(entity),
            },
    {
        let id = entity.id();
        match self.index.get(&id) {
            Some(i) => Some(&self.values[*i]),
            None => None,
        }
    }

    /// The component of `entity`, for writing, if it holds one.
    pub fn get_mut(&mut self, entity: Entity) -> (r: Option<&mut T>)
        requires
            old(self).wf(),
        ensures
            final(self).wf(),
            final(self).entities() == old(self).entities(),
            match r {
                Some(v) => old(self)@.contains_key(entity) && *v == old(self)@[entity]
                    && final(self)@ == old(self)@.insert(entity, *final(v)),
                None => !old(self)@.contains_key(entity) && final(self)@ == old(self)@,
            },
    {
        let id = entity.id();
        let found = match self.index.get(&id) {
            Some(i) => Some(*i),
            None => None,
        };
        match found {
            Some(i) => {
                proof {
                    Entity::lemma_id_injective();
                }
                Some(&mut self.values[i])
            },
            None => None,
        }
    }

    /// The number of entities that hold a component here.
    pub fn len(&self) -> (n: usize)
        ensures
            n == self.entities().len(),
    {
        self.holders.len()
    }

    /// The `i`-th entity of the walk order.
    pub fn entity_at(&self, i: usize) -> (e: Entity)
        requires
            i < self.entities().len(),
        ensures
            e == self.entities()[i as int],
    {
        self.holders[i]
    }

    /// Gives `entity` the component `value`, replacing the one it held.
    pub fn insert(&mut self, entity: Entity, value: T)
        requires
            old(self).wf(),
        ensures
            final(self).wf(),
            final(self)@ == old(self)@.insert(entity, value),
            final(self).entities() == if old(self)@.contains_key(entity) {
                old(self).entities()
            } else {
                old(self).entities().push(entity)
            },
    {
        let id = entity.id();
        let found = match self.index.get(&id) {
            Some(i) => Some(*i),
            None => None,
        };
        match found {
            Some(i) => {
                self.values[i] = value;
            },
            None => {
                let at = self.holders.len();
                self.index.insert(id, at);
                self.holders.push(entity);
                self.values.push(value);
            },
        }
        proof {
            Entity::lemma_id_injective();
            assert(self@ =~= old(self)@.insert(entity, value));
        }
    }

    /// Takes the component of `entity` away and returns it.
    pub fn remove(&mut self, entity: Entity) -> (r: Option<T>)
        requires
            old(self).wf(),
        ensures
            final(self).wf(),
            final(self)@ == old(self)@.remove(entity),
            r == if old(self)@.contains_key(entity) {
                Some(old(self)@[entity])
            } else {
                None
            },
            final(self).entities() == swap_removed(old(self).entities(), entity),
    {
        let id = entity.id();
        proof {
            old(self).lemma_entities();
            Entity::lemma_id_injective();
        }
        match self.index.remove(&id) {
            None => {
                proof {
                    assert(self.index@ =~= old(self).index@);
                    assert(self@ =~= old(self)@.remove(entity));
                }
                None
            },
            Some(i) => {
                let last = self.holders.len() - 1;
                self.holders.swap_remove(i);
                let value = self.values.swap_remove(i);
                if i != last {
                    let moved = self.holders[i];
                    self.index.insert(moved.id(), i);
                }
                proof {
                    let before = old(self).holders@;
                    assert(before[i as int] == entity);
                    assert(before.index_of(entity) == i);
                    assert(self@ =~= old(self)@.remove(entity));
                }
                Some(value)
            },
        }
    }
}

} // verus!
