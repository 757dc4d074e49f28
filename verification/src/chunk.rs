//! Chunks: the block positions that fall into one cell of a coarse grid.

use crate::block_position::BlockPosition;
use vstd::prelude::*;

verus! {

/// The positions of the blocks of one chunk, with the chunk's coordinates.
pub struct Chunk {
    pub chunk_x: i32,
    pub chunk_y: i32,
    pub chunk_z: i32,
    pub positions: Vec<BlockPosition>,
}

} // verus!
