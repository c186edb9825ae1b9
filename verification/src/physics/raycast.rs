use vstd::prelude::*;

verus! {

/// Core direction of a ray.
#[derive(Clone, Copy, Debug, PartialEq, Eq, Structural)]
pub enum Direction {
    Forward,
    Backwards,
    Left,
    Right,
    Up,
    Down,
}

/// A local axis of a transform.
#[derive(Clone, Copy, Debug, PartialEq, Eq, Structural)]
pub enum LocalAxis {
    Forward,
    Right,
    Up,
}

impl Direction {
    /// The local axis a ray in this direction follows, and whether it goes against it:
    /// forward and backwards follow the forward axis, left and right the right axis (left
    /// along it, right against it), up and down the up axis.
    pub fn basis(&self) -> (r: (LocalAxis, bool))
        ensures
            r == (match *self {
                Direction::Forward => (LocalAxis::Forward, false),
                Direction::Backwards => (LocalAxis::Forward, true),
                Direction::Left => (LocalAxis::Right, false),
                Direction::Right => (LocalAxis::Right, true),
                Direction::Up => (LocalAxis::Up, false),
                Direction::Down => (LocalAxis::Up, true),
            }),
    {
        match self {
            Direction::Forward => (LocalAxis::Forward, false),
            Direction::Backwards => (LocalAxis::Forward, true),
            Direction::Left => (LocalAxis::Right, false),
            Direction::Right => (LocalAxis::Right, true),
            Direction::Up => (LocalAxis::Up, false),
            Direction::Down => (LocalAxis::Up, true),
        }
    }
}

} // verus!
