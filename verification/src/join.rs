//! Joins: the entities that are present in every one of several storages.

use crate::entity::Entity;
use crate::storage::{HashMapStorage, VecStorage};
use vstd::prelude::*;

verus! {

/// A collection of entities that a join can draw from and probe.
///
/// Storages are such collections. So is a reference to one, and a pair of
/// them, which stands for the entities present in both; pairs nest, so a
/// join over any number of storages is a join over one value of this kind.
pub trait EntitySet {
    /// Whether the collection's own invariant holds.
    spec fn valid(&self) -> bool;

    /// The entities present in the collection.
    spec fn members(&self) -> Set<Entity>;

    /// The sequence a join walks through: it holds every member once, and
    /// for a pair it is the shorter of the two sides' sequences.
    spec fn candidates(&self) -> Seq<Entity>;

    /// The walk visits no entity twice and misses no member.
    proof fn lemma_candidates(&self)
        requires
            self.valid(),
        ensures
            self.candidates().no_duplicates(),
            forall|e: Entity| self.members().contains(e) ==> self.candidates().contains(e),
    ;

    /// Whether `entity` is present.
    fn has(&self, entity: Entity) -> (b: bool)
        requires
            self.valid(),
        ensures
            b == self.members().contains(entity),
    ;

    /// The length of the walk.
    fn count(&self) -> (n: usize)
        requires
            self.valid(),
        ensures
            n == self.candidates().len(),
    ;

    /// The `i`-th entity of the walk.
    fn candidate(&self, i: usize) -> (e: Entity)
        requires
            self.valid(),
            i < self.candidates().len(),
        ensures
            e == self.candidates()[i as int],
    ;
}

impl<T> EntitySet for VecStorage<T> {
    open spec fn valid(&self) -> bool {
        self.wf()
    }

    open spec fn members(&self) -> Set<Entity> {
        self@.dom()
    }

    open spec fn candidates(&self) -> Seq<Entity> {
        self.entities()
    }

    proof fn lemma_candidates(&self) {
        self.lemma_entities();
    }

    fn has(&self, entity: Entity) -> (b: bool) {
        self.contains(entity)
    }

    fn count(&self) -> (n: usize) {
        self.len()
    }

    fn candidate(&self, i: usize) -> (e: Entity) {
        self.entity_at(i)
    }
}

impl<T> EntitySet for HashMapStorage<T> {
    open spec fn valid(&self) -> bool {
        self.wf()
    }

    open spec fn members(&self) -> Set<Entity> {
        self@.dom()
    }

    open spec fn candidates(&self) -> Seq<Entity> {
        self.entities()
    }

    proof fn lemma_candidates(&self) {
        self.lemma_entities();
    }

    fn has(&self, entity: Entity) -> (b: bool) {
        self.contains(entity)
    }

    fn count(&self) -> (n: usize) {
        self.len()
    }

    fn candidate(&self, i: usize) -> (e: Entity) {
        self.entity_at(i)
    }
}

impl<'a, S: EntitySet> EntitySet for &'a S {
    open spec fn valid(&self) -> bool {
        (**self).valid()
    }

    open spec fn members(&self) -> Set<Entity> {
        (**self).members()
    }

    open spec fn candidates(&self) -> Seq<Entity> {
        (**self).candidates()
    }

    proof fn lemma_candidates(&self) {
        (**self).lemma_candidates();
    }

    fn has(&self, entity: Entity) -> (b: bool) {
        (**self).has(entity)
    }

    fn count(&self) -> (n: usize) {
        (**self).count()
    }

    fn candidate(&self, i: usize) -> (e: Entity) {
        (**self).candidate(i)
    }
}

impl<A: EntitySet, B: EntitySet> EntitySet for (A, B) {
    open spec fn valid(&self) -> bool {
        self.0.valid() && self.1.valid()
    }

    open spec fn members(&self) -> Set<Entity> {
        self.0.members().intersect(self.1.members())
    }

    open spec fn candidates(&self) -> Seq<Entity> {
        if self.0.candidates().len() <= self.1.candidates().len() {
            self.0.candidates()
        } else {
            self.1.candidates()
        }
    }

    proof fn lemma_candidates(&self) {
        self.0.lemma_candidates();
        self.1.lemma_candidates();
    }

    fn has(&self, entity: Entity) -> (b: bool) {
        self.0.has(entity) && self.1.has(entity)
    }

    fn count(&self) -> (n: usize) {
        let a = self.0.count();
        let b = self.1.count();
        if a <= b {
            a
        } else {
            b
        }
    }

    fn candidate(&self, i: usize) -> (e: Entity) {
        if self.0.count() <= self.1.count() {
            self.0.candidate(i)
        } else {
            self.1.candidate(i)
        }
    }
}

/// The entities of `walk` from position `from` on that are in `members`,
/// in the order of the walk.
pub open spec fn present_from(walk: Seq<Entity>, members: Set<Entity>, from: nat) -> Seq<Entity>
    decreases walk.len() - from,
{
    if from >= walk.len() {
        Seq::empty()
    } else if members.contains(walk[from as int]) {
        seq![walk[from as int]] + present_from(walk, members, from + 1)
    } else {
        present_from(walk, members, from + 1)
    }
}

/// The members of `set` among its candidates from position `from` on, in
/// walk order.
pub open spec fn joined_from<S: EntitySet>(set: S, from: nat) -> Seq<Entity> {
    present_from(set.candidates(), set.members(), from)
}

/// What a join over `set` yields: its members, in walk order.
pub open spec fn joined<S: EntitySet>(set: S) -> Seq<Entity> {
    joined_from(set, 0)
}

/// Whether `e` stands in `walk` at position `from` or later.
pub open spec fn stands_from(walk: Seq<Entity>, from: nat, e: Entity) -> bool {
    exists|i: int| from <= i < walk.len() && walk[i] == e
}

/// The tail of a join holds exactly the members whose place in the walk
/// is at or after `from`, each once.
pub proof fn lemma_present_from(walk: Seq<Entity>, members: Set<Entity>, from: nat)
    requires
        walk.no_duplicates(),
    ensures
        present_from(walk, members, from).no_duplicates(),
        forall|e: Entity| #[trigger]
            present_from(walk, members, from).contains(e) <==> members.contains(e) && stands_from(
                walk,
                from,
                e,
            ),
    decreases walk.len() - from,
{
    if from < walk.len() {
        let next: nat = from + 1;
        lemma_present_from(walk, members, next);
        let rest = present_from(walk, members, next);
        let head = walk[from as int];
        let all = present_from(walk, members, from);
        assert forall|e: Entity| stands_from(walk, from, e) <==> e == head || stands_from(
            walk,
            next,
            e,
        ) by {
            if stands_from(walk, from, e) {
                let i = choose|i: int| from <= i < walk.len() && walk[i] == e;
                if i != from {
                    assert(next <= i < walk.len() && walk[i] == e);
                }
            }
            if stands_from(walk, next, e) {
                let i = choose|i: int| next <= i < walk.len() && walk[i] == e;
                assert(from <= i < walk.len() && walk[i] == e);
            }
            if e == head {
                assert(from <= from < walk.len() && walk[from as int] == e);
            }
        }
        if members.contains(head) {
            assert(all == seq![head] + rest);
            assert(!rest.contains(head)) by {
                if stands_from(walk, next, head) {
                    let i = choose|i: int| next <= i < walk.len() && walk[i] == head;
                    assert(walk[i] == walk[from as int]);
                }
            }
            assert forall|j: int, k: int| 0 <= j < k < all.len() implies all[j] != all[k] by {
                if j == 0 {
                    assert(rest[k - 1] == all[k]);
                    assert(rest.contains(all[k]));
                } else {
                    assert(rest[j - 1] == all[j] && rest[k - 1] == all[k]);
                }
            }
            assert forall|e: Entity| #[trigger]
                all.contains(e) <==> members.contains(e) && stands_from(walk, from, e) by {
                if all.contains(e) {
                    let j = choose|j: int| 0 <= j < all.len() && all[j] == e;
                    if j != 0 {
                        assert(rest[j - 1] == e);
                        assert(rest.contains(e));
                    }
                }
                if e == head {
                    assert(all[0] == e);
                } else if rest.contains(e) {
                    let j = choose|j: int| 0 <= j < rest.len() && rest[j] == e;
                    assert(all[j + 1] == e);
                }
            }
        } else {
            assert(all == rest);
            assert forall|e: Entity| #[trigger]
                all.contains(e) <==> members.contains(e) && stands_from(walk, from, e) by {
                assert(rest.contains(e) <==> members.contains(e) && stands_from(
                    walk,
                    next,
                    e,
                ));
            }
        }
    } else {
        assert forall|e: Entity| !stands_from(walk, from, e) by {}
    }
}

/// A join yields exactly the members of the joined collection, each once:
/// for a single storage the entities it holds, for a pair the
/// intersection of the two sides, and nothing where that is empty.
pub proof fn lemma_join_is_intersection<S: EntitySet>(set: S)
    requires
        set.valid(),
    ensures
        joined(set).no_duplicates(),
        joined(set).to_set() == set.members(),
        set.members().is_empty() ==> joined(set) == Seq::<Entity>::empty(),
{
    set.lemma_candidates();
    lemma_present_from(set.candidates(), set.members(), 0);
    assert forall|e: Entity| joined(set).contains(e) <==> set.members().contains(e) by {
        if set.members().contains(e) {
            assert(set.candidates().contains(e));
            let i = choose|i: int| 0 <= i < set.candidates().len() && set.candidates()[i] == e;
            assert(0nat <= i < set.candidates().len() && set.candidates()[i] == e);
            assert(stands_from(set.candidates(), 0, e));
        }
    }
    assert(joined(set).to_set() =~= set.members());
    if set.members().is_empty() {
        if joined(set).len() > 0 {
            assert(joined(set).contains(joined(set)[0]));
        }
        assert(joined(set) =~= Seq::<Entity>::empty());
    }
}

/// Where every entity of the walk is a member, nothing is left out.
pub proof fn lemma_present_all(walk: Seq<Entity>, members: Set<Entity>, from: nat)
    requires
        from <= walk.len(),
        forall|i: int| 0 <= i < walk.len() ==> members.contains(walk[i]),
    ensures
        present_from(walk, members, from) == walk.skip(from as int),
    decreases walk.len() - from,
{
    if from < walk.len() {
        lemma_present_all(walk, members, from + 1);
        assert(seq![walk[from as int]] + walk.skip(from as int + 1) =~= walk.skip(from as int));
    } else {
        assert(walk.skip(from as int) =~= Seq::<Entity>::empty());
    }
}

/// A join over a single storage yields the entities of that storage, in
/// the order in which the storage walks them.
pub proof fn lemma_join_of_one<S: EntitySet>(set: S)
    requires
        set.valid(),
        set.candidates().to_set() == set.members(),
    ensures
        joined(set) == set.candidates(),
{
    let walk = set.candidates();
    assert forall|i: int| 0 <= i < walk.len() implies set.members().contains(walk[i]) by {
        assert(walk.to_set().contains(walk[i]));
    }
    lemma_present_all(walk, set.members(), 0);
    assert(walk.skip(0) =~= walk);
}

/// A join in progress: it hands out, one at a time and each once, the
/// entities present in every storage of the set it was made over.
///
/// The iterator borrows what it joins, so the storages can not be changed
/// while it is in use.
pub struct JoinIter<S: EntitySet> {
    set: S,
    cursor: usize,
}

impl<S: EntitySet> JoinIter<S> {
    /// The entities this join has yet to yield, in order.
    pub closed spec fn remaining(&self) -> Seq<Entity> {
        joined_from(self.set, self.cursor as nat)
    }

    /// The collection being joined.
    pub closed spec fn source(&self) -> S {
        self.set
    }

    /// The iterator's invariant.
    pub closed spec fn wf(&self) -> bool {
        self.set.valid() && self.cursor <= self.set.candidates().len()
    }

    /// Starts a join over `set`.
    pub fn new(set: S) -> (it: Self)
        requires
            set.valid(),
        ensures
            it.wf(),
            it.source() == set,
            it.remaining() == joined(set),
    {
        JoinIter { set, cursor: 0 }
    }

    /// The next entity of the join, or `None` when it is used up.
    pub fn next(&mut self) -> (r: Option<Entity>)
        requires
            old(self).wf(),
        ensures
            final(self).wf(),
            final(self).source() == old(self).source(),
            match r {
                Some(e) => old(self).remaining().len() > 0 && e == old(self).remaining()[0]
                    && final(self).remaining() == old(self).remaining().drop_first(),
                None => old(self).remaining().len() == 0 && final(self).remaining().len() == 0,
            },
    {
        let n = self.set.count();
        while self.cursor < n
            invariant
                self.set == old(self).set,
                self.set.valid(),
                n == self.set.candidates().len(),
                self.cursor <= n,
                joined_from(self.set, self.cursor as nat) == old(self).remaining(),
            decreases n - self.cursor,
        {
            let e = self.set.candidate(self.cursor);
            self.cursor = self.cursor + 1;
            if self.set.has(e) {
                proof {
                    let rest = joined_from(self.set, self.cursor as nat);
                    assert(old(self).remaining() == seq![e] + rest);
                    assert(old(self).remaining().drop_first() =~= rest);
                }
                return Some(e);
            }
        }
        None
    }

    /// Runs the join to its end and returns what was left of it.
    pub fn collect(self) -> (out: Vec<Entity>)
        requires
            self.wf(),
        ensures
            out@ == self.remaining(),
    {
        let mut it = self;
        let mut out: Vec<Entity> = Vec::new();
        let ghost all = it.remaining();
        loop
            invariant
                it.wf(),
                out@ + it.remaining() == all,
            ensures
                out@ == all,
            decreases it.remaining().len(),
        {
            match it.next() {
                Some(e) => {
                    out.push(e);
                },
                None => {
                    break ;
                },
            }
        }
        out
    }
}

/// The entities present in every storage of `set`, in walk order.
pub fn join<S: EntitySet>(set: S) -> (out: Vec<Entity>)
    requires
        set.valid(),
    ensures
        out@ == joined(set),
{
    JoinIter::new(set).collect()
}

} // verus!
