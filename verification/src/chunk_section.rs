//! Sections: cubes of 16 blocks a side with a palette of their own.

use crate::block_state::{air_view, BlockState};
use crate::palette::{clone_entries, deduplicated, get_or_insert, lemma_insert_deduplicated, views};
use crate::region::{air_palette, clone_indices, filled, lemma_occurrences_bound, occurrences};
use vstd::prelude::*;

verus! {

/// The number of blocks along each side of a section.
pub const SECTION_SIZE: usize = 16;

/// The number of blocks of a section.
pub const SECTION_VOLUME: usize = 4096;

/// The index of the block `(x, y, z)` of a section: x varies fastest, then
/// z, then y.
pub open spec fn section_index(x: int, y: int, z: int) -> int {
    y * 256 + z * 16 + x
}

/// Replacing one block changes the number of occurrences of a value by the
/// block that leaves and the block that comes.
pub proof fn lemma_occurrences_update(blocks: Seq<usize>, index: int, block: usize, value: usize)
    requires
        0 <= index < blocks.len(),
    ensures
        occurrences(blocks.update(index, block), value) + (if blocks[index] == value {
            1nat
        } else {
            0nat
        }) == occurrences(blocks, value) + (if block == value {
            1nat
        } else {
            0nat
        }),
    decreases blocks.len(),
{
    let updated = blocks.update(index, block);
    if index == blocks.len() - 1 {
        assert(updated.drop_last() =~= blocks.drop_last());
    } else {
        assert(updated.drop_last() =~= blocks.drop_last().update(index, block));
        lemma_occurrences_update(blocks.drop_last(), index, block, value);
    }
}

/// A cube of 16 x 16 x 16 blocks. Every block is an index into the palette
/// of the section; `block_count` is the number of blocks that are not
/// empty.
#[derive(Debug)]
pub struct ChunkSection {
    pub blocks: Vec<usize>,
    pub palette: Vec<BlockState>,
    pub block_count: u32,
}

impl ChunkSection {
    /// The invariant of a section: 4096 blocks that point into the
    /// palette, a palette that starts with the empty block and repeats no
    /// entry, and a count of the blocks that do not point to entry 0.
    pub open spec fn wf(&self) -> bool {
        &&& self.blocks.len() == SECTION_VOLUME
        &&& self.palette.len() >= 1
        &&& self.palette[0]@ == air_view()
        &&& deduplicated(views(self.palette@))
        &&& forall|i: int| 0 <= i < self.blocks.len() ==> #[trigger] self.blocks[i] < self.palette.len()
        &&& self.block_count == SECTION_VOLUME - occurrences(self.blocks@, 0)
    }

    /// A section of empty blocks.
    pub fn new() -> (r: Self)
        ensures
            r.wf(),
            r.block_count == 0,
            views(r.palette@) == seq![air_view()],
            forall|i: int| 0 <= i < r.blocks.len() ==> r.blocks[i] == 0,
    {
        let blocks = filled(SECTION_VOLUME, 0);
        proof {
            lemma_all_zero(blocks@);
        }
        ChunkSection { blocks, palette: air_palette(), block_count: 0 }
    }

    /// The index of the block `(x, y, z)`.
    pub fn get_index(&self, x: usize, y: usize, z: usize) -> (r: usize)
        requires
            section_index(x as int, y as int, z as int) < SECTION_VOLUME,
        ensures
            r == section_index(x as int, y as int, z as int),
    {
        (y * SECTION_SIZE * SECTION_SIZE) + (z * SECTION_SIZE) + x
    }

    /// The index of `block` in the palette, which gets `block` as its last
    /// entry when it holds no equal entry yet.
    pub fn get_or_insert_in_palette(&mut self, block: BlockState) -> (r: usize)
        ensures
            r == crate::palette::index_in(views(old(self).palette@), block@),
            views(final(self).palette@) == crate::palette::inserted(
                views(old(self).palette@),
                block@,
            ),
            r < final(self).palette.len(),
            final(self).palette[r as int]@ == block@,
            final(self).palette.len() >= old(self).palette.len(),
            forall|i: int|
                0 <= i < old(self).palette.len() ==> final(self).palette[i] == old(self).palette[i],
            final(self).blocks == old(self).blocks,
            final(self).block_count == old(self).block_count,
            old(self).wf() ==> final(self).wf(),
    {
        proof {
            if self.wf() {
                lemma_insert_deduplicated(views(self.palette@), block@);
            }
        }
        get_or_insert(&mut self.palette, block)
    }

    /// Puts `block` at `(x, y, z)` and keeps the count of blocks that are
    /// not empty.
    pub fn set_block(&mut self, x: usize, y: usize, z: usize, block: BlockState) -> (r: bool)
        requires
            old(self).wf(),
            section_index(x as int, y as int, z as int) < SECTION_VOLUME,
        ensures
            r,
            final(self).wf(),
            views(final(self).palette@) == crate::palette::inserted(
                views(old(self).palette@),
                block@,
            ),
            final(self).blocks@ == old(self).blocks@.update(
                section_index(x as int, y as int, z as int),
                crate::palette::index_in(views(old(self).palette@), block@) as usize,
            ),
            final(self).palette[final(self).blocks[section_index(x as int, y as int, z as int)] as int]@
                == block@,
    {
        let index = self.get_index(x, y, z);
        proof {
            lemma_insert_deduplicated(views(self.palette@), block@);
            lemma_occurrences_bound(self.blocks@, 0);
        }
        let palette_index = self.get_or_insert_in_palette(block);
        let old_block_index = self.blocks[index];
        proof {
            lemma_occurrences_update(self.blocks@, index as int, palette_index, 0);
            lemma_occurrences_bound(self.blocks@.update(index as int, palette_index), 0);
        }
        if old_block_index == 0 && palette_index != 0 {
            self.block_count += 1;
        } else if old_block_index != 0 && palette_index == 0 {
            self.block_count -= 1;
        }
        self.blocks.set(index, palette_index);
        true
    }

    /// The block at `(x, y, z)`.
    pub fn get_block(&self, x: usize, y: usize, z: usize) -> (r: &BlockState)
        requires
            self.wf(),
            section_index(x as int, y as int, z as int) < SECTION_VOLUME,
        ensures
            *r == self.palette[self.blocks[section_index(x as int, y as int, z as int)] as int],
    {
        let index = self.get_index(x, y, z);
        let palette_index = self.blocks[index];
        &self.palette[palette_index]
    }

    /// The number of blocks that are not empty.
    pub fn block_count(&self) -> (r: u32)
        ensures
            r == self.block_count,
    {
        self.block_count
    }

    /// Whether every block is empty.
    pub fn is_empty(&self) -> (r: bool)
        ensures
            r == (self.block_count == 0),
    {
        self.block_count == 0
    }
}

/// In a sequence of zeros, zero occurs everywhere.
pub proof fn lemma_all_zero(blocks: Seq<usize>)
    requires
        forall|i: int| 0 <= i < blocks.len() ==> blocks[i] == 0,
    ensures
        occurrences(blocks, 0) == blocks.len(),
    decreases blocks.len(),
{
    if blocks.len() > 0 {
        lemma_all_zero(blocks.drop_last());
    }
}

impl Clone for ChunkSection {
    fn clone(&self) -> (r: Self)
        ensures
            r.blocks@ == self.blocks@,
            views(r.palette@) == views(self.palette@),
            r.block_count == self.block_count,
            self.wf() ==> r.wf(),
    {
        let r = ChunkSection {
            blocks: clone_indices(&self.blocks),
            palette: clone_entries(&self.palette),
            block_count: self.block_count,
        };
        proof {
            if self.wf() {
                assert(views(r.palette@)[0] == views(self.palette@)[0]);
            }
        }
        r
    }
}

} // verus!
