use vstd::prelude::*;

use crate::ecs::world::World;

verus! {

/// What type of access a query term has.
#[derive(Clone, Copy, Debug, PartialEq, Eq, Structural)]
pub enum Access {
    Noop,
    Include,
    Exclude,
    Read,
    Write,
}

impl Default for Access {
    fn default() -> (a: Self)
        ensures
            a == Access::Noop,
    {
        Access::Noop
    }
}

impl Access {
    /// Whether the access does nothing.
    pub fn is_noop(self) -> (r: bool)
        ensures
            r == (self == Access::Noop),
    {
        match self {
            Access::Noop => true,
            _ => false,
        }
    }
}

/// One term of a query: a component type and how it is accessed.
#[derive(Clone, Copy, Debug, PartialEq, Eq, Structural)]
struct Term {
    field: u64,
    access: Access,
}

impl Default for Term {
    fn default() -> (t: Self) {
        Term { field: 0, access: Access::Noop }
    }
}

/// A world together with the terms of a query over it.
pub struct Query<A, R> {
    world: World<A, R>,
    terms: Vec<Term>,
}

} // verus!
