pub mod packet;
pub mod snapshot;

use vstd::prelude::*;

verus! {

/// A component type whose values are replicated from the server to clients.
pub trait Replicate {}

} // verus!
