//! Positions of single blocks.

use vstd::prelude::*;

verus! {

/// The integer coordinates of a block.
#[derive(Debug, Clone, Copy)]
pub struct BlockPosition {
    pub x: i32,
    pub y: i32,
    pub z: i32,
}

impl BlockPosition {
    /// The position `(x, y, z)`.
    pub fn new(x: i32, y: i32, z: i32) -> (r: Self)
        ensures
            r.x == x,
            r.y == y,
            r.z == z,
    {
        BlockPosition { x, y, z }
    }

    /// The coordinates as a triple.
    pub fn to_tuple(&self) -> (r: (i32, i32, i32))
        ensures
            r == (self.x, self.y, self.z),
    {
        (self.x, self.y, self.z)
    }

    /// The position with the coordinates of `tuple`.
    pub fn from_tuple(tuple: (i32, i32, i32)) -> (r: Self)
        ensures
            r.x == tuple.0,
            r.y == tuple.1,
            r.z == tuple.2,
    {
        BlockPosition::new(tuple.0, tuple.1, tuple.2)
    }
}

} // verus!
