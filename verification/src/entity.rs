use vstd::prelude::*;

verus! {

/// Identifier of an entity: the slot index it lives in and the generation of that slot.
#[derive(Clone, Copy, Debug, PartialEq, Eq, Structural, Hash)]
pub struct Entity {
    pub index: u32,
    pub generation: u32,
}

impl Entity {
    pub fn new(index: u32, generation: u32) -> (e: Entity)
        ensures
            e.index == index,
            e.generation == generation,
    {
        Entity { index, generation }
    }
}

} // verus!
