use vstd::prelude::*;

verus! {

/// The reserved id that stands for "no entity" in order-group links.
pub const NULL_ID: u32 = 0xFFFF_FFFF;

/// An opaque handle to an entity: an index `id` into the store's side
/// tables, and a `version` that invalidates the handle once the entity
/// with this id has been destroyed.
#[derive(PartialEq, Eq, Structural, Debug, Copy, Clone)]
pub struct Entity {
    pub id: u32,
    pub version: u32,
}

impl Entity {
    #[inline(always)]
    pub fn id(&self) -> (r: u32)
        ensures
            r == self.id,
    {
        self.id
    }

    #[inline(always)]
    pub fn version(&self) -> (r: u32)
        ensures
            r == self.version,
    {
        self.version
    }

    /// The null handle: the reserved id, version 0.
    #[inline(always)]
    pub fn null() -> (r: Entity)
        ensures
            r.id == NULL_ID,
            r.version == 0,
    {
        Entity { id: NULL_ID, version: 0 }
    }
}

} // verus!
