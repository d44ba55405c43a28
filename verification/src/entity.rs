//! Entity handles.

use vstd::prelude::*;

verus! {

/// An opaque handle that groups zero or more components.
///
/// Handles are numbered in order of creation and a number is never handed
/// out twice, so a destroyed handle can not come to name a later entity.
#[derive(Clone, Copy, Debug, PartialEq, Eq, Structural)]
pub struct Entity {
    id: usize,
}

impl Entity {
    /// The handle with the given slot number.
    pub(crate) fn new(id: usize) -> (e: Entity)
        ensures
            e.id() == id,
    {
        Entity { id }
    }

    /// The slot number of this handle.
    #[verifier::when_used_as_spec(spec_id)]
    pub fn id(&self) -> (id: usize)
        ensures
            id == self.spec_id(),
    {
        self.id
    }

    /// The slot number of this handle, in specifications.
    pub closed spec fn spec_id(&self) -> usize {
        self.id
    }

    /// Handles with the same slot number are the same handle.
    pub proof fn lemma_id_injective()
        ensures
            forall|a: Entity, b: Entity| a.id() == b.id() ==> a == b,
    {
    }
}

} // verus!
