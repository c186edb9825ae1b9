use std::marker::PhantomData;
use vstd::prelude::*;
use vstd::std_specs::cmp::PartialEqSpec;

verus! {

/// Marker for types that can be stored as assets.
pub trait Asset {}

/// A typed reference to an asset slot: the slot index and the generation it was issued for.
#[derive(Debug, Hash)]
pub struct Handle<T> {
    pub index: u32,
    pub generation: u32,
    pub _marker: PhantomData<T>,
}

impl<T> Clone for Handle<T> {
    fn clone(&self) -> (r: Self)
        ensures
            r == *self,
    {
        Handle { index: self.index, generation: self.generation, _marker: PhantomData }
    }
}

impl<T> Copy for Handle<T> {}

impl<T> PartialEq for Handle<T> {
    fn eq(&self, other: &Self) -> (r: bool) {
        self.index == other.index && self.generation == other.generation
    }
}

impl<T> vstd::std_specs::cmp::PartialEqSpecImpl for Handle<T> {
    open spec fn obeys_eq_spec() -> bool {
        true
    }

    open spec fn eq_spec(&self, other: &Self) -> bool {
        self.index == other.index && self.generation == other.generation
    }
}

impl<T> Eq for Handle<T> {}

/// Handles compare equal exactly when they name the same slot at the same generation: two
/// handles of one slot issued at different generations are different handles.
pub proof fn lemma_handle_eq_is_field_eq<T>(a: Handle<T>, b: Handle<T>)
    ensures
        a.eq_spec(&b) <==> (a.index == b.index && a.generation == b.generation),
        a.index == b.index && a.generation != b.generation ==> !a.eq_spec(&b),
        a.eq_spec(&b) <==> b.eq_spec(&a),
        a.eq_spec(&a),
{
}

impl<T> Handle<T> {
    /// Builds a handle from its raw parts.
    pub fn from_raw(index: u32, generation: u32) -> (h: Self)
        ensures
            h.index == index,
            h.generation == generation,
    {
        Handle { index, generation, _marker: PhantomData }
    }

    /// A handle that is guaranteed not to reference any live asset.
    pub fn dangling() -> (h: Self)
        ensures
            h.index == u32::MAX,
            h.generation == u32::MAX,
    {
        Handle { index: u32::MAX, generation: u32::MAX, _marker: PhantomData }
    }

    /// The slot index of this handle.
    pub fn index(&self) -> (i: u32)
        ensures
            i == self.index,
    {
        self.index
    }

    /// The slot generation this handle was issued for.
    pub fn generation(&self) -> (g: u32)
        ensures
            g == self.generation,
    {
        self.generation
    }
}

} // verus!
