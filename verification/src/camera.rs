use vstd::prelude::*;

verus! {

/// The four horizontal directions in which the camera can move.
#[derive(Clone, Copy, Debug, PartialEq, Eq, Structural)]
pub enum Direction {
    Left,
    Right,
    Front,
    Back,
}

} // verus!
