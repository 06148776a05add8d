use vstd::prelude::*;

verus! {

/// A grid coordinate: `x` is the column index, `y` the row index, both in [0, 9).
#[derive(Clone, Copy, Debug, Default, PartialEq, Eq, Hash, Structural)]
pub struct Vec2 {
    pub x: u8,
    pub y: u8,
}

impl Vec2 {
    pub fn new(x: u8, y: u8) -> (r: Self)
        ensures
            r.x == x,
            r.y == y,
    {
        Self { x, y }
    }
}

} // verus!
