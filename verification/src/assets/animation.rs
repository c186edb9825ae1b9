use vstd::prelude::*;

verus! {

/// How an animation track is sampled between two keyframes.
#[derive(Clone, Copy, Debug, PartialEq, Eq, Structural)]
pub enum Interpolation {
    Linear,
    Step,
    CubicSpline,
}

} // verus!
