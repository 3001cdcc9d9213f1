use vstd::prelude::*;

verus! {

/// An identifier of an entity of a [`World`](crate::world::World).
///
/// Entities are numbered in the order in which they are spawned, and an index is
/// never handed out twice.
#[derive(Clone, Copy, PartialEq, Eq, Structural, Debug, Hash)]
pub struct Entity {
    pub index: u32,
}

/// The identifier of a kind of component (any component other than the hierarchy's own).
pub type ComponentId = u64;

impl Entity {
    /// The index of the placeholder entity, which no world ever spawns.
    pub const PLACEHOLDER_INDEX: u32 = 4294967295u32;

    /// An entity that no world ever spawns, used where an entity is needed before the
    /// real one is known.
    pub fn placeholder() -> (e: Entity)
        ensures
            e.index == Self::PLACEHOLDER_INDEX,
    {
        Entity { index: Self::PLACEHOLDER_INDEX }
    }

    /// The entity with the given index.
    pub fn from_raw(index: u32) -> (e: Entity)
        ensures
            e.index == index,
    {
        Entity { index }
    }

    /// The index of this entity.
    pub fn index(&self) -> (r: u32)
        ensures
            r == self.index,
    {
        self.index
    }
}

} // verus!
