pub mod animation;
pub mod handle;
pub mod storage;

use vstd::prelude::*;

use crate::assets::handle::Asset;

verus! {

/// The asset type with no content.
#[derive(Clone, Copy, Debug, Default, PartialEq, Eq, Structural)]
pub struct Assets {}

impl Asset for Assets {}

} // verus!
