//! Regions: anchored boxes of voxels, each voxel an index into the
//! region's own palette.
//!
//! A region is described by an anchor `position` and a signed `size`; the
//! sign of each component of `size` tells in which direction the region
//! extends from the anchor. The voxels are stored in raster order of the
//! bounding box that position and size describe.

use crate::block_entity::{block_entity_nbt, BlockEntity, BlockEntityMap, BlockEntityView, PlacedEntity};
use crate::block_position::BlockPosition;
use crate::block_state::{air_name, air_view, block_state_nbt, BlockState, BlockStateView};
use crate::bounding_box::{extent_end, BoundingBox};
use crate::entity::{entity_nbt, entity_views, Entity, EntityView};
use crate::error::DecodeError;
use crate::packing::{
    bit,
    bits_needed,
    calculate_bits_per_block,
    field_holds,
    is_packing,
    is_unpacking,
    lemma_bits_equal,
    lemma_bits_needed,
    lemma_pack_unpack,
    lemma_small_value_bits,
    pack,
    packed_len,
    stream_bit,
    unpack_indices,
    unpacks_to,
};
use crate::palette::{
    clone_entries,
    deduplicated,
    get_or_insert,
    index_in,
    inserted,
    inserted_all,
    is_deduplicated,
    lemma_index_in,
    lemma_insert_deduplicated,
    palette_nbt,
    palette_to_nbt,
    position,
    views,
};
use crate::text::{coordinate_key, coordinate_text};
use crate::utils::nbt::{lemma_list_view, list_view, NbtMap, NbtValue, NbtView};
use vstd::prelude::*;

verus! {

/// The volume of a box with the given dimensions, when it can be the
/// length of an array.
pub fn checked_volume(width: i32, height: i32, length: i32) -> (r: Option<usize>)
    requires
        width >= 0,
        height >= 0,
        length >= 0,
    ensures
        match r {
            Some(v) => v == width * height * length,
            None => width * height * length > usize::MAX,
        },
{
    let w: u128 = width as u128;
    let h: u128 = height as u128;
    let l: u128 = length as u128;
    proof {
        assert(0 <= w * h <= 0x7fff_ffff * 0x7fff_ffff) by (nonlinear_arith)
            requires
                0 <= w <= 0x7fff_ffff,
                0 <= h <= 0x7fff_ffff,
        ;
        assert(0 <= w * h * l <= 0x7fff_ffff * 0x7fff_ffff * 0x7fff_ffff) by (nonlinear_arith)
            requires
                0 <= w * h <= 0x7fff_ffff * 0x7fff_ffff,
                0 <= l <= 0x7fff_ffff,
        ;
    }
    let volume: u128 = w * h * l;
    if volume <= usize::MAX as u128 {
        Some(volume as usize)
    } else {
        None
    }
}

/// A vector of `count` copies of `value`.
pub fn filled(count: usize, value: usize) -> (r: Vec<usize>)
    ensures
        r.len() == count,
        forall|i: int| 0 <= i < count ==> r[i] == value,
{
    let mut v: Vec<usize> = Vec::new();
    let mut i: usize = 0;
    while i < count
        invariant
            i <= count,
            v.len() == i,
            forall|j: int| 0 <= j < i ==> v[j] == value,
        decreases count - i,
    {
        v.push(value);
        i += 1;
    }
    v
}

/// A palette that holds the empty block alone.
pub fn air_palette() -> (r: Vec<BlockState>)
    ensures
        views(r@) == seq![air_view()],
        r.len() == 1,
        r[0]@ == air_view(),
{
    let mut palette: Vec<BlockState> = Vec::new();
    palette.push(BlockState::new("minecraft:air".to_string()));
    proof {
        assert(views(palette@) =~= seq![air_view()]);
    }
    palette
}

/// The size that an axis is given when it has to hold `required` points:
/// half as much again, rounded up.
pub open spec fn grown(required: int) -> int {
    (3 * required + 1) / 2
}

/// The smaller of two integers.
pub open spec fn lesser(a: int, b: int) -> int {
    if a <= b {
        a
    } else {
        b
    }
}

/// The larger of two integers.
pub open spec fn greater(a: int, b: int) -> int {
    if a >= b {
        a
    } else {
        b
    }
}

/// The minimum and the grown size of an axis that spans `low..=high` and
/// has to hold `point` as well.
pub fn axis_growth(low: i32, high: i32, point: i32) -> (r: (i64, i64))
    requires
        low <= high,
    ensures
        r.0 == lesser(low as int, point as int),
        r.1 == grown(greater(high as int, point as int) - lesser(low as int, point as int) + 1),
        i32::MIN <= r.0 <= i32::MAX,
        1 <= r.1 <= 0x1_8000_0000,
{
    let least: i64 = if low <= point { low as i64 } else { point as i64 };
    let most: i64 = if high >= point { high as i64 } else { point as i64 };
    let required: i64 = most - least + 1;
    (least, (3 * required + 1) / 2)
}

/// The palette that merging leaves behind: `palette`, with every block of
/// `incoming` that is not empty inserted in turn.
pub open spec fn merged_palette(
    palette: Seq<BlockStateView>,
    incoming: Seq<BlockStateView>,
) -> Seq<BlockStateView>
    decreases incoming.len(),
{
    if incoming.len() == 0 {
        palette
    } else {
        let earlier = merged_palette(palette, incoming.drop_last());
        if incoming.last().name == air_name() {
            earlier
        } else {
            inserted(earlier, incoming.last())
        }
    }
}

/// One `set_block`: the point written and the value of the block.
pub type Write = (int, int, int, BlockStateView);

/// The block that the last write to `(x, y, z)` among `writes` put there,
/// if there was one.
pub open spec fn last_written(writes: Seq<Write>, x: int, y: int, z: int) -> Option<BlockStateView>
    decreases writes.len(),
{
    if writes.len() == 0 {
        None
    } else if writes.last().0 == x && writes.last().1 == y && writes.last().2 == z {
        Some(writes.last().3)
    } else {
        last_written(writes.drop_last(), x, y, z)
    }
}

/// `states` are the states that a region goes through while `writes` are
/// made one after another by `set_block`, each with success.
pub open spec fn is_history(states: Seq<Region>, writes: Seq<Write>) -> bool {
    &&& states.len() == writes.len() + 1
    &&& forall|i: int|
        0 <= i < writes.len() ==> (#[trigger] states[i + 1]).wrote(
            &states[i],
            writes[i].0,
            writes[i].1,
            writes[i].2,
            writes[i].3,
        )
}

/// After any number of successful writes, every point that was written
/// holds the block that was written there last, whatever growth the later
/// writes brought about.
pub proof fn lemma_reads_last_write(states: Seq<Region>, writes: Seq<Write>, x: int, y: int, z: int)
    requires
        is_history(states, writes),
        last_written(writes, x, y, z).is_some(),
    ensures
        states.last().block_at(x, y, z) == last_written(writes, x, y, z),
    decreases writes.len(),
{
    let n = writes.len() as int;
    let w = writes.last();
    assert(states[n - 1 + 1].wrote(&states[n - 1], w.0, w.1, w.2, w.3));
    if w.0 == x && w.1 == y && w.2 == z {
    } else {
        let earlier_states = states.drop_last();
        let earlier_writes = writes.drop_last();
        assert(is_history(earlier_states, earlier_writes)) by {
            assert forall|i: int| 0 <= i < earlier_writes.len() implies (
            #[trigger] earlier_states[i + 1]).wrote(
                &earlier_states[i],
                earlier_writes[i].0,
                earlier_writes[i].1,
                earlier_writes[i].2,
                earlier_writes[i].3,
            ) by {
                assert(states[i + 1].wrote(
                    &states[i],
                    writes[i].0,
                    writes[i].1,
                    writes[i].2,
                    writes[i].3,
                ));
            }
        }
        lemma_reads_last_write(earlier_states, earlier_writes, x, y, z);
        assert(earlier_states.last() == states[n - 1]);
        assert(states[n].block_at(x, y, z) == states[n - 1].block_at(x, y, z));
    }
}

/// How often `value` occurs in `blocks`.
pub open spec fn occurrences(blocks: Seq<usize>, value: usize) -> nat
    decreases blocks.len(),
{
    if blocks.len() == 0 {
        0
    } else {
        occurrences(blocks.drop_last(), value) + if blocks.last() == value {
            1nat
        } else {
            0nat
        }
    }
}

/// A value occurs at most as often as there are blocks.
pub proof fn lemma_occurrences_bound(blocks: Seq<usize>, value: usize)
    ensures
        occurrences(blocks, value) <= blocks.len(),
    decreases blocks.len(),
{
    if blocks.len() > 0 {
        lemma_occurrences_bound(blocks.drop_last(), value);
    }
}

/// The entries among the first `upto` of `palette` that occur in `blocks`,
/// in palette order, each with the number of voxels that point to it.
pub open spec fn type_counts(palette: Seq<BlockStateView>, blocks: Seq<usize>, upto: nat) -> Seq<
    (BlockStateView, nat),
>
    decreases upto,
{
    if upto == 0 {
        Seq::empty()
    } else {
        let earlier = type_counts(palette, blocks, (upto - 1) as nat);
        let count = occurrences(blocks, (upto - 1) as usize);
        if count > 0 {
            earlier.push((palette[upto - 1], count))
        } else {
            earlier
        }
    }
}

/// A size of at most 1024 on every axis. A box of such a size has a volume
/// that can be the length of an array on every machine.
pub open spec fn small_size(size: (i32, i32, i32)) -> bool {
    &&& -1024 <= size.0 <= 1024
    &&& -1024 <= size.1 <= 1024
    &&& -1024 <= size.2 <= 1024
}

/// Whether a region can cover the box that `position` and `size`
/// describe: the far corners and the dimensions are representable, and the
/// volume can be the length of an array. The last holds of every small
/// size, which is said first so that a caller with such a size has
/// nothing to multiply; `lemma_box_fits` gives the bound on the volume in
/// either case.
pub open spec fn box_fits(position: (i32, i32, i32), size: (i32, i32, i32)) -> bool {
    let b = BoundingBox::spec_from_position_and_size(position, size);
    &&& i32::MIN <= extent_end(position.0 as int, size.0 as int) <= i32::MAX
    &&& i32::MIN <= extent_end(position.1 as int, size.1 as int) <= i32::MAX
    &&& i32::MIN <= extent_end(position.2 as int, size.2 as int) <= i32::MAX
    &&& b.3 - b.0 + 1 <= i32::MAX
    &&& b.4 - b.1 + 1 <= i32::MAX
    &&& b.5 - b.2 + 1 <= i32::MAX
    &&& small_size(size) || (b.3 - b.0 + 1) * (b.4 - b.1 + 1) * (b.5 - b.2 + 1) <= usize::MAX
}

/// The box of a small size has a volume of at most 1024 * 1024 * 1024.
pub proof fn lemma_small_volume(position: (i32, i32, i32), size: (i32, i32, i32))
    requires
        small_size(size),
    ensures
        0 < box_volume(position, size) <= 0x4000_0000,
        box_volume(position, size) <= usize::MAX,
{
    let b = BoundingBox::spec_from_position_and_size(position, size);
    let w = b.3 - b.0 + 1;
    let h = b.4 - b.1 + 1;
    let l = b.5 - b.2 + 1;
    assert(0 < w * h * l <= 0x4000_0000) by (nonlinear_arith)
        requires
            0 < w <= 1024,
            0 < h <= 1024,
            0 < l <= 1024,
    ;
}

/// The volume of a box that fits is positive and can be the length of an
/// array.
pub proof fn lemma_box_fits(position: (i32, i32, i32), size: (i32, i32, i32))
    requires
        box_fits(position, size),
    ensures
        0 < box_volume(position, size) <= usize::MAX,
{
    let b = BoundingBox::spec_from_position_and_size(position, size);
    let w = b.3 - b.0 + 1;
    let h = b.4 - b.1 + 1;
    let l = b.5 - b.2 + 1;
    if small_size(size) {
        lemma_small_volume(position, size);
    }
    assert(0 < w * h * l) by (nonlinear_arith)
        requires
            0 < w,
            0 < h,
            0 < l,
    ;
}

/// The number of points of the box that `position` and `size` describe.
pub open spec fn box_volume(position: (i32, i32, i32), size: (i32, i32, i32)) -> int {
    let b = BoundingBox::spec_from_position_and_size(position, size);
    (b.3 - b.0 + 1) * (b.4 - b.1 + 1) * (b.5 - b.2 + 1)
}

/// Whether the far corner of an extent is representable.
pub fn extent_fits(position: i32, size: i32) -> (r: bool)
    ensures
        r == (i32::MIN <= extent_end(position as int, size as int) <= i32::MAX),
{
    let p: i64 = position as i64;
    let s: i64 = size as i64;
    let end: i64 = if size > 0 {
        p + s - 1
    } else if size < 0 {
        p + s + 1
    } else {
        p
    };
    -0x8000_0000 <= end && end <= 0x7fff_ffff
}

/// The volume of the box that `position` and `size` describe, when a
/// region can cover that box.
pub fn checked_box_volume(position: (i32, i32, i32), size: (i32, i32, i32)) -> (r: Option<usize>)
    ensures
        match r {
            Some(v) => box_fits(position, size) && v == box_volume(position, size),
            None => !box_fits(position, size),
        },
{
    if !extent_fits(position.0, size.0) || !extent_fits(position.1, size.1) || !extent_fits(
        position.2,
        size.2,
    ) {
        return None;
    }
    let b = BoundingBox::from_position_and_size(position, size);
    let w: i64 = b.max.0 as i64 - b.min.0 as i64 + 1;
    let h: i64 = b.max.1 as i64 - b.min.1 as i64 + 1;
    let l: i64 = b.max.2 as i64 - b.min.2 as i64 + 1;
    let top: i64 = 0x7fff_ffff;
    if w > top || h > top || l > top {
        return None;
    }
    proof {
        if small_size(size) {
            lemma_small_volume(position, size);
        }
    }
    checked_volume(w as i32, h as i32, l as i32)
}

/// The compound that binds the text `x,y,z` of each of the first `count`
/// voxels of `region`, in raster order, to the palette index of the voxel.
pub open spec fn voxels_nbt(region: Region, count: nat) -> Map<Seq<char>, NbtView>
    decreases count,
{
    if count == 0 {
        Map::empty()
    } else {
        let p = region.spec_bounding_box().spec_coords(count - 1);
        voxels_nbt(region, (count - 1) as nat).insert(
            coordinate_text(p.0, p.1, p.2),
            NbtView::Int(region.blocks[count - 1] as i32),
        )
    }
}

/// The compound that binds the text `x,y,z` of the position of each of
/// `entries` to the structured value of the block entity held there.
pub open spec fn placed_nbt(entries: Seq<PlacedEntity>) -> Map<Seq<char>, NbtView>
    decreases entries.len(),
{
    if entries.len() == 0 {
        Map::empty()
    } else {
        let last = entries.last();
        placed_nbt(entries.drop_last()).insert(
            coordinate_text(last.0.0 as int, last.0.1 as int, last.0.2 as int),
            block_entity_nbt(last.1),
        )
    }
}

/// The three numbers of `v` as an array of ints.
pub open spec fn triple_array(v: (i32, i32, i32)) -> NbtView {
    NbtView::IntArray(seq![v.0, v.1, v.2])
}

/// The structured value of a region: its name, position and size, its
/// voxels by their coordinates, its palette, its entities and its block
/// entities by their positions.
pub open spec fn region_nbt(region: Region) -> NbtView {
    NbtView::Compound(
        Map::<Seq<char>, NbtView>::empty().insert("Name"@, NbtView::String(region.name@)).insert(
            "Position"@,
            triple_array(region.position),
        ).insert("Size"@, triple_array(region.size)).insert(
            "Blocks"@,
            NbtView::Compound(voxels_nbt(region, region.blocks.len() as nat)),
        ).insert(
            "Palette"@,
            NbtView::List(palette_nbt(views(region.palette@))),
        ).insert(
            "Entities"@,
            NbtView::List(
                Seq::new(region.entities.len() as nat, |i: int| entity_nbt(region.entities[i]@)),
            ),
        ).insert("BlockEntities"@, NbtView::Compound(placed_nbt(region.block_entities.entries()))),
    )
}

/// The structured value of a region as the container format with packed
/// blocks asks for it from one region alone: position and size as arrays,
/// the palette, the blocks packed into `words`, the entities and an empty
/// list of block entities.
pub open spec fn region_packed_nbt(region: Region, words: Seq<i64>) -> Map<Seq<char>, NbtView> {
    Map::<Seq<char>, NbtView>::empty().insert("Position"@, triple_array(region.position)).insert(
        "Size"@,
        triple_array(region.size),
    ).insert(
        "BlockStatePalette"@,
        NbtView::List(palette_nbt(views(region.palette@))),
    ).insert("BlockStates"@, NbtView::LongArray(words)).insert(
        "Entities"@,
        NbtView::List(
            Seq::new(region.entities.len() as nat, |i: int| entity_nbt(region.entities[i]@)),
        ),
    ).insert("TileEntities"@, NbtView::List(Seq::empty()))
}

/// The three numbers of `v` as an array of ints.
pub fn triple_to_array(v: (i32, i32, i32)) -> (r: NbtValue)
    ensures
        r@ == triple_array(v),
{
    let mut numbers: Vec<i32> = Vec::new();
    numbers.push(v.0);
    numbers.push(v.1);
    numbers.push(v.2);
    proof {
        assert(numbers@ =~= seq![v.0, v.1, v.2]);
    }
    NbtValue::IntArray(numbers)
}

/// A growable box of voxels with a palette of its own.
#[derive(Debug)]
pub struct Region {
    pub name: String,
    pub position: (i32, i32, i32),
    pub size: (i32, i32, i32),
    pub blocks: Vec<usize>,
    pub palette: Vec<BlockState>,
    pub entities: Vec<Entity>,
    pub block_entities: BlockEntityMap,
}

impl Region {
    /// The far corners of the region are representable.
    pub open spec fn extents_fit(&self) -> bool {
        &&& i32::MIN <= extent_end(self.position.0 as int, self.size.0 as int) <= i32::MAX
        &&& i32::MIN <= extent_end(self.position.1 as int, self.size.1 as int) <= i32::MAX
        &&& i32::MIN <= extent_end(self.position.2 as int, self.size.2 as int) <= i32::MAX
    }

    /// The bounding box that position and size describe.
    pub open spec fn spec_bounding_box(&self) -> BoundingBox {
        let b = BoundingBox::spec_from_position_and_size(self.position, self.size);
        BoundingBox {
            min: (b.0 as i32, b.1 as i32, b.2 as i32),
            max: (b.3 as i32, b.4 as i32, b.5 as i32),
        }
    }

    /// The invariant of a region: its box is representable, no component
    /// of its size is zero, it holds one palette index per point of the
    /// box, every index points into the palette, and the palette starts
    /// with the empty block and repeats no entry.
    pub open spec fn wf(&self) -> bool {
        &&& self.extents_fit()
        &&& self.size.0 != 0 && self.size.1 != 0 && self.size.2 != 0
        &&& self.spec_bounding_box().valid()
        &&& self.blocks.len() == self.spec_bounding_box().spec_volume()
        &&& self.palette.len() >= 1
        &&& self.palette[0]@ == air_view()
        &&& deduplicated(views(self.palette@))
        &&& forall|i: int| 0 <= i < self.blocks.len() ==> #[trigger] self.blocks[i] < self.palette.len()
    }

    /// Whether the point `(x, y, z)` lies inside the region.
    pub open spec fn has_point(&self, x: int, y: int, z: int) -> bool {
        self.spec_bounding_box().has_point(x, y, z)
    }

    /// The block at `(x, y, z)`: the palette entry that the voxel there
    /// points to, or nothing outside the region.
    pub open spec fn block_at(&self, x: int, y: int, z: int) -> Option<BlockStateView> {
        if self.has_point(x, y, z) {
            Some(self.palette[self.blocks[self.spec_bounding_box().spec_index(x, y, z)] as int]@)
        } else {
            None
        }
    }

    /// A region of empty blocks that covers the box which `position` and
    /// `size` describe. The new region is anchored at the minimum corner of
    /// that box and its size is positive on every axis.
    pub fn new(name: String, position: (i32, i32, i32), size: (i32, i32, i32)) -> (r: Self)
        requires
            box_fits(position, size),
        ensures
            r.wf(),
            r.name == name,
            ({
                let b = BoundingBox::spec_from_position_and_size(position, size);
                &&& r.position == (b.0 as i32, b.1 as i32, b.2 as i32)
                &&& r.size == ((b.3 - b.0 + 1) as i32, (b.4 - b.1 + 1) as i32, (b.5 - b.2 + 1) as i32)
                &&& r.spec_bounding_box() == (BoundingBox {
                    min: (b.0 as i32, b.1 as i32, b.2 as i32),
                    max: (b.3 as i32, b.4 as i32, b.5 as i32),
                })
            }),
            views(r.palette@) == seq![air_view()],
            forall|i: int| 0 <= i < r.blocks.len() ==> r.blocks[i] == 0,
            r.entities@ == Seq::<Entity>::empty(),
            r.block_entities@ == Map::<(i32, i32, i32), BlockEntityView>::empty(),
    {
        proof {
            lemma_box_fits(position, size);
        }
        let bounding_box = BoundingBox::from_position_and_size(position, size);
        let (anchor, dimensions) = bounding_box.to_position_and_size();
        let volume = match checked_volume(dimensions.0, dimensions.1, dimensions.2) {
            Some(v) => v,
            None => {
                assert(false);
                0
            },
        };
        Region {
            name,
            position: anchor,
            size: dimensions,
            blocks: filled(volume, 0),
            palette: air_palette(),
            entities: Vec::new(),
            block_entities: BlockEntityMap::new(),
        }
    }

    /// What `from_indexed` makes of a palette and the indices of the
    /// voxels: a well-formed region over the box of `position` and `size`
    /// whose palette is the empty block followed by the entries of
    /// `palette` that were not there yet, and in which every voxel holds
    /// the block that its index names in `palette`.
    pub open spec fn holds_indexed(
        &self,
        position: (i32, i32, i32),
        size: (i32, i32, i32),
        palette: Seq<BlockStateView>,
        indices: Seq<usize>,
    ) -> bool {
        let b = BoundingBox::spec_from_position_and_size(position, size);
        &&& self.wf()
        &&& self.position == (b.0 as i32, b.1 as i32, b.2 as i32)
        &&& self.size == ((b.3 - b.0 + 1) as i32, (b.4 - b.1 + 1) as i32, (b.5 - b.2 + 1) as i32)
        &&& views(self.palette@) == inserted_all(seq![air_view()], palette)
        &&& self.blocks.len() == indices.len()
        &&& forall|i: int|
            0 <= i < indices.len() ==> self.palette[(#[trigger] self.blocks[i]) as int]@
                == palette[indices[i] as int]
    }

    /// The region over the box of `position` and `size` whose voxels, in
    /// raster order, hold the blocks that `indices` name in `palette`. The
    /// palette of the region starts with the empty block; the entries of
    /// `palette` follow in their order, each once. The indices must be as
    /// many as the box has points and must point into `palette`.
    #[verifier::loop_isolation(false)]
    pub fn from_indexed(
        name: String,
        position: (i32, i32, i32),
        size: (i32, i32, i32),
        palette: &Vec<BlockState>,
        indices: &Vec<usize>,
    ) -> (r: Result<Region, DecodeError>)
        requires
            box_fits(position, size),
        ensures
            match r {
                Ok(region) => region.name == name && region.entities@ == Seq::<Entity>::empty()
                    && region.block_entities@ == Map::<(i32, i32, i32), BlockEntityView>::empty()
                    && region.holds_indexed(position, size, views(palette@), indices@)
                    && indices.len() == box_volume(position, size) && forall|i: int|
                    0 <= i < indices.len() ==> #[trigger] indices[i] < palette.len(),
                Err(DecodeError::BlockCount) => indices.len() != box_volume(position, size),
                Err(DecodeError::PaletteIndex) => indices.len() == box_volume(position, size)
                    && exists|i: int| 0 <= i < indices.len() && #[trigger] indices[i] >= palette.len(),
                Err(_) => false,
            },
    {
        let mut region = Region::new(name, position, size);
        if indices.len() != region.blocks.len() {
            return Err(DecodeError::BlockCount);
        }
        let ghost fresh = region;
        let mut mapping: Vec<usize> = Vec::new();
        let mut j: usize = 0;
        let ghost file = views(palette@);
        proof {
            assert(file.take(0) =~= Seq::<BlockStateView>::empty());
        }
        while j < palette.len()
            invariant
                j <= palette.len(),
                file == views(palette@),
                mapping.len() == j,
                region.wf(),
                region.name == fresh.name,
                region.position == fresh.position,
                region.size == fresh.size,
                region.blocks == fresh.blocks,
                region.entities == fresh.entities,
                region.block_entities == fresh.block_entities,
                views(region.palette@) == inserted_all(seq![air_view()], file.take(j as int)),
                forall|k: int| 0 <= k < region.blocks.len() ==> region.blocks[k] == 0,
                forall|k: int|
                    0 <= k < j ==> #[trigger] mapping[k] < region.palette.len()
                        && region.palette[mapping[k] as int]@ == file[k],
            decreases palette.len() - j,
        {
            proof {
                lemma_insert_deduplicated(views(region.palette@), palette[j as int]@);
                assert(file.take(j as int + 1).drop_last() =~= file.take(j as int));
            }
            let ghost before = region.palette@;
            let index = get_or_insert(&mut region.palette, palette[j].clone());
            proof {
                assert forall|k: int| 0 <= k < j implies #[trigger] mapping[k] < region.palette.len()
                    && region.palette[mapping[k] as int]@ == file[k] by {
                    assert(region.palette[mapping[k] as int] == before[mapping[k] as int]);
                }
            }
            mapping.push(index);
            j += 1;
        }
        proof {
            assert(file.take(palette.len() as int) =~= file);
        }
        let mut blocks: Vec<usize> = Vec::new();
        let mut i: usize = 0;
        while i < indices.len()
            invariant
                i <= indices.len(),
                blocks.len() == i,
                mapping.len() == palette.len(),
                file == views(palette@),
                forall|k: int|
                    0 <= k < palette.len() ==> #[trigger] mapping[k] < region.palette.len()
                        && region.palette[mapping[k] as int]@ == file[k],
                forall|k: int| 0 <= k < i ==> #[trigger] indices[k] < palette.len(),
                forall|k: int|
                    0 <= k < i ==> #[trigger] blocks[k] < region.palette.len()
                        && region.palette[blocks[k] as int]@ == file[indices[k] as int],
            decreases indices.len() - i,
        {
            let index = indices[i];
            if index >= palette.len() {
                return Err(DecodeError::PaletteIndex);
            }
            blocks.push(mapping[index]);
            i += 1;
        }
        let ghost made = region;
        region.blocks = blocks;
        proof {
            assert(region.spec_bounding_box() == made.spec_bounding_box());
        }
        Ok(region)
    }

    /// A region of one empty block at `position`.
    pub fn single(name: String, position: (i32, i32, i32)) -> (r: Self)
        ensures
            r.wf(),
            r.name == name,
            r.position == position,
            r.size == (1i32, 1i32, 1i32),
            r.spec_bounding_box() == (BoundingBox { min: position, max: position }),
            views(r.palette@) == seq![air_view()],
            r.blocks@ == seq![0usize],
            r.entities@ == Seq::<Entity>::empty(),
            r.block_entities@ == Map::<(i32, i32, i32), BlockEntityView>::empty(),
    {
        let r = Region::new(name, position, (1, 1, 1));
        proof {
            let b = r.spec_bounding_box();
            assert(b.spec_volume() == 1) by (nonlinear_arith)
                requires
                    b.width() == 1,
                    b.height() == 1,
                    b.length() == 1,
            ;
            assert(r.blocks@ =~= seq![0usize]);
        }
        r
    }

    /// Whether the region is well formed.
    pub fn is_well_formed(&self) -> (r: bool)
        ensures
            r == self.wf(),
    {
        if self.size.0 == 0 || self.size.1 == 0 || self.size.2 == 0 {
            return false;
        }
        let volume = match checked_box_volume(self.position, self.size) {
            Some(v) => v,
            None => {
                return false;
            },
        };
        if self.blocks.len() != volume || self.palette.len() == 0 {
            return false;
        }
        if !self.palette[0].is_air() || !self.palette[0].properties.is_empty() {
            return false;
        }
        if !is_deduplicated(&self.palette) {
            return false;
        }
        let mut i: usize = 0;
        while i < self.blocks.len()
            invariant
                i <= self.blocks.len(),
                forall|j: int| 0 <= j < i ==> #[trigger] self.blocks[j] < self.palette.len(),
            decreases self.blocks.len() - i,
        {
            if self.blocks[i] >= self.palette.len() {
                return false;
            }
            i += 1;
        }
        true
    }

    /// The bounding box of the region.
    pub fn get_bounding_box(&self) -> (r: BoundingBox)
        requires
            self.extents_fit(),
        ensures
            r == self.spec_bounding_box(),
            r.ordered(),
    {
        BoundingBox::from_position_and_size(self.position, self.size)
    }

    /// Whether the point `(x, y, z)` lies inside the region: on each axis,
    /// inside `[position, position + size)` for a positive size and inside
    /// `(position + size, position]` for a negative one.
    pub fn is_in_region(&self, x: i32, y: i32, z: i32) -> (r: bool)
        requires
            self.extents_fit(),
        ensures
            r == self.has_point(x as int, y as int, z as int),
    {
        let bounding_box = self.get_bounding_box();
        bounding_box.contains((x, y, z))
    }

    /// The index in `blocks` of a point of the region.
    pub fn coords_to_index(&self, x: i32, y: i32, z: i32) -> (r: usize)
        requires
            self.wf(),
            self.has_point(x as int, y as int, z as int),
        ensures
            r == self.spec_bounding_box().spec_index(x as int, y as int, z as int),
            r < self.blocks.len(),
    {
        self.get_bounding_box().coords_to_index(x, y, z)
    }

    /// The point of the region whose voxel stands at `index` in `blocks`.
    pub fn index_to_coords(&self, index: usize) -> (r: (i32, i32, i32))
        requires
            self.wf(),
            index < self.blocks.len(),
        ensures
            (r.0 as int, r.1 as int, r.2 as int) == self.spec_bounding_box().spec_coords(
                index as int,
            ),
            self.has_point(r.0 as int, r.1 as int, r.2 as int),
            self.spec_bounding_box().spec_index(r.0 as int, r.1 as int, r.2 as int) == index,
    {
        self.get_bounding_box().index_to_coords(index)
    }

    /// The width, height and length of the bounding box.
    pub fn get_dimensions(&self) -> (r: (i32, i32, i32))
        requires
            self.wf(),
        ensures
            r.0 == self.spec_bounding_box().width(),
            r.1 == self.spec_bounding_box().height(),
            r.2 == self.spec_bounding_box().length(),
    {
        let bounding_box = self.get_bounding_box();
        bounding_box.get_dimensions()
    }

    /// The number of voxels of the region.
    pub fn volume(&self) -> (r: usize)
        requires
            self.wf(),
        ensures
            r == self.spec_bounding_box().spec_volume(),
            r == self.blocks.len(),
    {
        self.blocks.len()
    }

    /// The block at `(x, y, z)`, or nothing when the point lies outside the
    /// region.
    pub fn get_block(&self, x: i32, y: i32, z: i32) -> (r: Option<&BlockState>)
        requires
            self.wf(),
        ensures
            match r {
                Some(b) => self.block_at(x as int, y as int, z as int) == Some(b@) && *b
                    == self.palette[self.blocks[self.spec_bounding_box().spec_index(
                    x as int,
                    y as int,
                    z as int,
                )] as int],
                None => self.block_at(x as int, y as int, z as int).is_none(),
            },
    {
        if !self.is_in_region(x, y, z) {
            return None;
        }
        let index = self.coords_to_index(x, y, z);
        let block_index = self.blocks[index];
        Some(&self.palette[block_index])
    }

    /// The palette index stored at `(x, y, z)`, or nothing when the point
    /// lies outside the region.
    pub fn get_block_index(&self, x: i32, y: i32, z: i32) -> (r: Option<usize>)
        requires
            self.wf(),
        ensures
            r == if self.has_point(x as int, y as int, z as int) {
                Some(self.blocks[self.spec_bounding_box().spec_index(x as int, y as int, z as int)])
            } else {
                None
            },
    {
        if !self.is_in_region(x, y, z) {
            return None;
        }
        let index = self.coords_to_index(x, y, z);
        Some(self.blocks[index])
    }

    /// The minimum corner of the region once it has made room for the
    /// point `(x, y, z)`: the minimum corner of the smallest box that covers
    /// the region and the point.
    pub open spec fn expanded_min(&self, x: int, y: int, z: int) -> (int, int, int) {
        let b = self.spec_bounding_box();
        (lesser(b.min.0 as int, x), lesser(b.min.1 as int, y), lesser(b.min.2 as int, z))
    }

    /// The dimensions of the smallest box that covers the region and the
    /// point `(x, y, z)`.
    pub open spec fn required_size(&self, x: int, y: int, z: int) -> (int, int, int) {
        let b = self.spec_bounding_box();
        let m = self.expanded_min(x, y, z);
        (
            greater(b.max.0 as int, x) - m.0 + 1,
            greater(b.max.1 as int, y) - m.1 + 1,
            greater(b.max.2 as int, z) - m.2 + 1,
        )
    }

    /// The dimensions of the region once it has made room for the point
    /// `(x, y, z)`: on each axis the required size, grown by one half.
    pub open spec fn expanded_size(&self, x: int, y: int, z: int) -> (int, int, int) {
        let r = self.required_size(x, y, z);
        (grown(r.0), grown(r.1), grown(r.2))
    }

    /// Whether the region can make room for the point `(x, y, z)`: the box
    /// it would grow to has representable corners and dimensions, and a
    /// volume that can be the length of an array. The last holds of every
    /// box of at most 1024 points along each axis, which is said first so
    /// that a caller with such a box has nothing to multiply;
    /// `lemma_can_expand` gives the bound on the volume in either case.
    pub open spec fn can_expand(&self, x: int, y: int, z: int) -> bool {
        let m = self.expanded_min(x, y, z);
        let s = self.expanded_size(x, y, z);
        &&& s.0 <= i32::MAX && s.1 <= i32::MAX && s.2 <= i32::MAX
        &&& m.0 + s.0 - 1 <= i32::MAX && m.1 + s.1 - 1 <= i32::MAX && m.2 + s.2 - 1 <= i32::MAX
        &&& (s.0 <= 1024 && s.1 <= 1024 && s.2 <= 1024) || s.0 * s.1 * s.2 <= usize::MAX
    }

    /// The box that a region can grow to has a volume that can be the
    /// length of an array.
    pub proof fn lemma_can_expand(&self, x: int, y: int, z: int)
        requires
            self.spec_bounding_box().ordered(),
            self.can_expand(x, y, z),
        ensures
            ({
                let s = self.expanded_size(x, y, z);
                0 < s.0 * s.1 * s.2 <= usize::MAX
            }),
    {
        let s = self.expanded_size(x, y, z);
        assert(0 < s.0 * s.1 * s.2) by (nonlinear_arith)
            requires
                0 < s.0,
                0 < s.1,
                0 < s.2,
        ;
        if s.0 <= 1024 && s.1 <= 1024 && s.2 <= 1024 {
            assert(s.0 * s.1 * s.2 <= 0x4000_0000) by (nonlinear_arith)
                requires
                    0 < s.0 <= 1024,
                    0 < s.1 <= 1024,
                    0 < s.2 <= 1024,
            ;
        }
    }

    /// The bounding box of the region once it holds the point `(x, y, z)`:
    /// unchanged when the point lies inside already.
    pub open spec fn expanded_box(&self, x: int, y: int, z: int) -> BoundingBox {
        if self.has_point(x, y, z) {
            self.spec_bounding_box()
        } else {
            let m = self.expanded_min(x, y, z);
            let s = self.expanded_size(x, y, z);
            BoundingBox {
                min: (m.0 as i32, m.1 as i32, m.2 as i32),
                max: ((m.0 + s.0 - 1) as i32, (m.1 + s.1 - 1) as i32, (m.2 + s.2 - 1) as i32),
            }
        }
    }

    /// Whether the region can make room for the point `(x, y, z)`.
    pub fn fits_expanded(&self, x: i32, y: i32, z: i32) -> (r: bool)
        requires
            self.wf(),
        ensures
            r == self.can_expand(x as int, y as int, z as int),
    {
        let b = self.get_bounding_box();
        let (m0, s0) = axis_growth(b.min.0, b.max.0, x);
        let (m1, s1) = axis_growth(b.min.1, b.max.1, y);
        let (m2, s2) = axis_growth(b.min.2, b.max.2, z);
        let top: i64 = 0x7fff_ffff;
        if s0 > top || s1 > top || s2 > top {
            return false;
        }
        if m0 + s0 - 1 > top || m1 + s1 - 1 > top || m2 + s2 - 1 > top {
            return false;
        }
        proof {
            if s0 <= 1024 && s1 <= 1024 && s2 <= 1024 {
                self.lemma_can_expand(x as int, y as int, z as int);
            }
        }
        checked_volume(s0 as i32, s1 as i32, s2 as i32).is_some()
    }

    /// What `expand_to_fit` and `set_block` leave of the former content:
    /// every block of `before` stands where it stood, and the points that
    /// the region has gained hold the empty block.
    pub open spec fn keeps_content_of(&self, before: &Region) -> bool {
        forall|x: int, y: int, z: int| #[trigger]
            self.block_at(x, y, z) == (if before.has_point(x, y, z) {
                before.block_at(x, y, z)
            } else if self.has_point(x, y, z) {
                Some(air_view())
            } else {
                None
            })
    }

    /// Grows the region so that it covers the point `(x, y, z)`. Nothing
    /// changes when the point lies inside already. Otherwise the region is
    /// anchored anew at the minimum corner of the smallest box that covers
    /// it and the point, each dimension of that box is grown by one half,
    /// and every voxel keeps its block at its absolute coordinates.
    ///
    /// A region that cannot grow that far, because the grown box would
    /// leave the range of the coordinates or its volume that of an array's
    /// length, stays as it is; `fits_expanded` tells beforehand.
    pub fn expand_to_fit(&mut self, x: i32, y: i32, z: i32)
        requires
            old(self).wf(),
        ensures
            final(self).wf(),
            final(self).blocks.len() == final(self).spec_bounding_box().spec_volume(),
            old(self).has_point(x as int, y as int, z as int) || old(self).can_expand(
                x as int,
                y as int,
                z as int,
            ) ==> final(self).spec_bounding_box() == old(self).expanded_box(
                x as int,
                y as int,
                z as int,
            ) && final(self).has_point(x as int, y as int, z as int),
            old(self).has_point(x as int, y as int, z as int) ==> *final(self) == *old(self),
            !old(self).has_point(x as int, y as int, z as int) && old(self).can_expand(
                x as int,
                y as int,
                z as int,
            ) ==> {
                &&& final(self).position == old(self).expanded_box(x as int, y as int, z as int).min
                &&& final(self).size.0 == old(self).expanded_size(x as int, y as int, z as int).0
                &&& final(self).size.1 == old(self).expanded_size(x as int, y as int, z as int).1
                &&& final(self).size.2 == old(self).expanded_size(x as int, y as int, z as int).2
            },
            !old(self).has_point(x as int, y as int, z as int) && !old(self).can_expand(
                x as int,
                y as int,
                z as int,
            ) ==> *final(self) == *old(self),
            final(self).name == old(self).name,
            final(self).palette == old(self).palette,
            final(self).entities == old(self).entities,
            final(self).block_entities == old(self).block_entities,
            final(self).keeps_content_of(old(self)),
            forall|a: int, b: int, c: int|
                old(self).has_point(a, b, c) ==> final(self).has_point(a, b, c)
                    && #[trigger] final(self).blocks[final(self).spec_bounding_box().spec_index(
                    a,
                    b,
                    c,
                )] == old(self).blocks[old(self).spec_bounding_box().spec_index(a, b, c)],
    {
        if self.is_in_region(x, y, z) || !self.fits_expanded(x, y, z) {
            proof {
                assert forall|a: int, b: int, c: int| self.has_point(a, b, c) implies 0
                    <= self.spec_bounding_box().spec_index(a, b, c) by {
                    self.spec_bounding_box().lemma_coords_of_index(a, b, c);
                }
            }
            return ;
        }
        let current = self.get_bounding_box();
        let (m0, s0) = axis_growth(current.min.0, current.max.0, x);
        let (m1, s1) = axis_growth(current.min.1, current.max.1, y);
        let (m2, s2) = axis_growth(current.min.2, current.max.2, z);
        let grown_box = BoundingBox {
            min: (m0 as i32, m1 as i32, m2 as i32),
            max: ((m0 + s0 - 1) as i32, (m1 + s1 - 1) as i32, (m2 + s2 - 1) as i32),
        };
        proof {
            self.lemma_can_expand(x as int, y as int, z as int);
        }
        let volume = match checked_volume(s0 as i32, s1 as i32, s2 as i32) {
            Some(v) => v,
            None => {
                assert(false);
                0
            },
        };
        let mut new_blocks = filled(volume, 0);
        let count = self.blocks.len();
        let mut index: usize = 0;
        proof {
            assert(grown_box.valid());
            assert(grown_box.spec_volume() == volume);
            assert(grown_box == self.expanded_box(x as int, y as int, z as int));
        }
        while index < count
            invariant
                index <= count,
                count == self.blocks.len(),
                self.wf(),
                current == self.spec_bounding_box(),
                grown_box.valid(),
                grown_box.spec_volume() == volume,
                new_blocks.len() == volume,
                forall|a: int, b: int, c: int|
                    current.has_point(a, b, c) ==> #[trigger] grown_box.has_point(a, b, c),
                forall|k: int|
                    0 <= k < volume ==> #[trigger] new_blocks[k] == ({
                        let p = grown_box.spec_coords(k);
                        if current.has_point(p.0, p.1, p.2) && current.spec_index(p.0, p.1, p.2)
                            < index {
                            self.blocks[current.spec_index(p.0, p.1, p.2)]
                        } else {
                            0
                        }
                    }),
            decreases count - index,
        {
            let (cx, cy, cz) = current.index_to_coords(index);
            proof {
                assert(grown_box.has_point(cx as int, cy as int, cz as int));
                grown_box.lemma_coords_of_index(cx as int, cy as int, cz as int);
            }
            let target = grown_box.coords_to_index(cx, cy, cz);
            let ghost before = new_blocks@;
            new_blocks.set(target, self.blocks[index]);
            proof {
                assert forall|k: int| 0 <= k < volume implies #[trigger] new_blocks[k] == ({
                    let p = grown_box.spec_coords(k);
                    if current.has_point(p.0, p.1, p.2) && current.spec_index(p.0, p.1, p.2)
                        < index + 1 {
                        self.blocks[current.spec_index(p.0, p.1, p.2)]
                    } else {
                        0
                    }
                }) by {
                    let p = grown_box.spec_coords(k);
                    grown_box.lemma_index_of_coords(k);
                    if k != target {
                        assert(new_blocks[k] == before[k]);
                        if current.has_point(p.0, p.1, p.2) {
                            current.lemma_coords_of_index(p.0, p.1, p.2);
                        }
                    }
                }
            }
            index += 1;
        }
        let ghost before = *self;
        self.position = grown_box.min;
        self.size = (s0 as i32, s1 as i32, s2 as i32);
        self.blocks = new_blocks;
        proof {
            assert(self.spec_bounding_box() == grown_box);
            assert forall|a: int, b: int, c: int| #[trigger]
                self.block_at(a, b, c) == (if before.has_point(a, b, c) {
                    before.block_at(a, b, c)
                } else if self.has_point(a, b, c) {
                    Some(air_view())
                } else {
                    None
                }) by {
                if grown_box.has_point(a, b, c) {
                    grown_box.lemma_coords_of_index(a, b, c);
                    if current.has_point(a, b, c) {
                        current.lemma_coords_of_index(a, b, c);
                    }
                } else {
                    assert(!current.has_point(a, b, c));
                }
            }
            assert forall|a: int, b: int, c: int| before.has_point(a, b, c) implies self.has_point(
                a,
                b,
                c,
            ) && #[trigger] self.blocks[self.spec_bounding_box().spec_index(a, b, c)]
                == before.blocks[before.spec_bounding_box().spec_index(a, b, c)] by {
                grown_box.lemma_coords_of_index(a, b, c);
                current.lemma_coords_of_index(a, b, c);
            }
            assert forall|i: int| 0 <= i < self.blocks.len() implies #[trigger] self.blocks[i]
                < self.palette.len() by {
                let p = grown_box.spec_coords(i);
                if current.has_point(p.0, p.1, p.2) {
                    current.lemma_coords_of_index(p.0, p.1, p.2);
                }
            }
        }
    }

    /// What a successful `set_block` of `block` at `(x, y, z)` makes of the
    /// region `before`: the region has grown as `expand_to_fit` says, the
    /// palette holds the block, the point holds the block, and every other
    /// point holds what it held, or the empty block where the region has
    /// gained it. A write inside the region leaves its anchor and its size
    /// alone; a write outside anchors it at the minimum corner of the grown
    /// box, with positive sizes.
    pub open spec fn wrote(&self, before: &Region, x: int, y: int, z: int, block: BlockStateView) -> bool {
        &&& self.wf()
        &&& self.spec_bounding_box() == before.expanded_box(x, y, z)
        &&& before.has_point(x, y, z) ==> self.position == before.position && self.size
            == before.size
        &&& !before.has_point(x, y, z) ==> {
            &&& self.position == before.expanded_box(x, y, z).min
            &&& self.size.0 == before.expanded_size(x, y, z).0
            &&& self.size.1 == before.expanded_size(x, y, z).1
            &&& self.size.2 == before.expanded_size(x, y, z).2
        }
        &&& views(self.palette@) == inserted(views(before.palette@), block)
        &&& self.block_at(x, y, z) == Some(block)
        &&& forall|a: int, b: int, c: int|
            !(a == x && b == y && c == z) ==> #[trigger] self.block_at(a, b, c) == (if before.has_point(
                a,
                b,
                c,
            ) {
                before.block_at(a, b, c)
            } else if self.has_point(a, b, c) {
                Some(air_view())
            } else {
                None
            })
        &&& self.name == before.name
        &&& self.entities == before.entities
        &&& self.block_entities == before.block_entities
    }

    /// The index of `block` in the palette, which gets `block` as its last
    /// entry when it holds no equal entry yet.
    pub fn get_or_insert_in_palette(&mut self, block: BlockState) -> (r: usize)
        ensures
            r == index_in(views(old(self).palette@), block@),
            views(final(self).palette@) == inserted(views(old(self).palette@), block@),
            r < final(self).palette.len(),
            final(self).palette[r as int]@ == block@,
            final(self).palette.len() >= old(self).palette.len(),
            forall|i: int|
                0 <= i < old(self).palette.len() ==> final(self).palette[i] == old(self).palette[i],
            final(self).name == old(self).name,
            final(self).position == old(self).position,
            final(self).size == old(self).size,
            final(self).blocks == old(self).blocks,
            final(self).entities == old(self).entities,
            final(self).block_entities == old(self).block_entities,
            old(self).wf() ==> final(self).wf(),
    {
        proof {
            if self.wf() {
                lemma_insert_deduplicated(views(self.palette@), block@);
            }
        }
        get_or_insert(&mut self.palette, block)
    }

    /// Puts `block` at `(x, y, z)`, growing the region first when the point
    /// lies outside. Returns `false`, and changes nothing, when the region
    /// cannot grow that far.
    pub fn set_block(&mut self, x: i32, y: i32, z: i32, block: BlockState) -> (r: bool)
        requires
            old(self).wf(),
        ensures
            r == (old(self).has_point(x as int, y as int, z as int) || old(self).can_expand(
                x as int,
                y as int,
                z as int,
            )),
            r ==> final(self).wrote(old(self), x as int, y as int, z as int, block@),
            !r ==> *final(self) == *old(self),
    {
        self.expand_to_fit(x, y, z);
        if !self.is_in_region(x, y, z) {
            return false;
        }
        let ghost grown_region = *self;
        let index = self.coords_to_index(x, y, z);
        proof {
            lemma_insert_deduplicated(views(self.palette@), block@);
        }
        let palette_index = self.get_or_insert_in_palette(block);
        self.blocks.set(index, palette_index);
        proof {
            let bounding_box = self.spec_bounding_box();
            assert(bounding_box == grown_region.spec_bounding_box());
            assert forall|a: int, b: int, c: int|
                !(a == x && b == y && c == z) implies #[trigger] self.block_at(a, b, c)
                == grown_region.block_at(a, b, c) by {
                if bounding_box.has_point(a, b, c) {
                    bounding_box.lemma_coords_of_index(a, b, c);
                    bounding_box.lemma_coords_of_index(x as int, y as int, z as int);
                    let i = bounding_box.spec_index(a, b, c);
                    assert(self.blocks[i] == grown_region.blocks[i]);
                    assert(grown_region.blocks[i] < grown_region.palette.len());
                }
            }
            assert forall|a: int, b: int, c: int|
                !(a == x && b == y && c == z) implies #[trigger] self.block_at(a, b, c) == (
            if old(self).has_point(a, b, c) {
                old(self).block_at(a, b, c)
            } else if self.has_point(a, b, c) {
                Some(air_view())
            } else {
                None
            }) by {
                assert(self.block_at(a, b, c) == grown_region.block_at(a, b, c));
                assert(grown_region.block_at(a, b, c) == (if old(self).has_point(a, b, c) {
                    old(self).block_at(a, b, c)
                } else if grown_region.has_point(a, b, c) {
                    Some(air_view())
                } else {
                    None
                }));
            }
        }
        true
    }

    /// The blocks of the voxels in raster order.
    pub open spec fn voxel_views(&self) -> Seq<BlockStateView> {
        Seq::new(self.blocks.len() as nat, |i: int| self.palette[self.blocks[i] as int]@)
    }

    /// Whether the region can take `other` in: the smallest box that covers
    /// both has representable dimensions and a volume that can be the
    /// length of an array, as that of every small box can.
    pub open spec fn can_merge(&self, other: &Region) -> bool {
        let u = self.spec_bounding_box().spec_union(&other.spec_bounding_box());
        u.dimensions_fit() && (u.small() || u.spec_volume() <= usize::MAX)
    }

    /// Whether the region can take `other` in.
    pub fn fits_merged(&self, other: &Region) -> (r: bool)
        requires
            self.wf(),
            other.wf(),
        ensures
            r == self.can_merge(other),
    {
        let combined = self.get_bounding_box().union(&other.get_bounding_box());
        let w: i64 = combined.max.0 as i64 - combined.min.0 as i64 + 1;
        let h: i64 = combined.max.1 as i64 - combined.min.1 as i64 + 1;
        let l: i64 = combined.max.2 as i64 - combined.min.2 as i64 + 1;
        let top: i64 = 0x7fff_ffff;
        if w > top || h > top || l > top {
            return false;
        }
        proof {
            self.spec_bounding_box().lemma_union_covers(&other.spec_bounding_box());
            combined.lemma_small_volume();
        }
        checked_volume(w as i32, h as i32, l as i32).is_some()
    }

    /// What merging `other` into `before` leaves at every point: the block
    /// of `other` where `other` holds one that is not empty, else the block
    /// of `before`, else the empty block inside the merged box.
    pub open spec fn merged_content_of(&self, before: &Region, other: &Region) -> bool {
        forall|x: int, y: int, z: int| #[trigger]
            self.block_at(x, y, z) == (if other.has_point(x, y, z) && other.block_at(
                x,
                y,
                z,
            ).unwrap().name != air_name() {
                other.block_at(x, y, z)
            } else if before.has_point(x, y, z) {
                before.block_at(x, y, z)
            } else if self.has_point(x, y, z) {
                Some(air_view())
            } else {
                None
            })
    }

    /// Merges `other` into the region. The region comes to cover the
    /// smallest box that holds both. Its own blocks stay where they are,
    /// with their palette indices; then every block of `other` that is not
    /// empty is painted over them, in raster order of `other`, and enters
    /// the palette when it is new. The entities of `other` are appended,
    /// and its block entities are added, replacing those at the same
    /// position. `other` is left as it is.
    pub fn merge(&mut self, other: &Region)
        requires
            old(self).wf(),
            other.wf(),
            old(self).can_merge(other),
        ensures
            final(self).wf(),
            final(self).name == old(self).name,
            final(self).spec_bounding_box() == old(self).spec_bounding_box().spec_union(
                &other.spec_bounding_box(),
            ),
            final(self).position == final(self).spec_bounding_box().min,
            final(self).size.0 == final(self).spec_bounding_box().width(),
            final(self).size.1 == final(self).spec_bounding_box().height(),
            final(self).size.2 == final(self).spec_bounding_box().length(),
            views(final(self).palette@) == merged_palette(
                views(old(self).palette@),
                other.voxel_views(),
            ),
            final(self).merged_content_of(old(self), other),
            entity_views(final(self).entities@) == entity_views(old(self).entities@) + entity_views(
                other.entities@,
            ),
            final(self).block_entities@ == old(self).block_entities@.union_prefer_right(
                other.block_entities@,
            ),
    {
        let own_box = self.get_bounding_box();
        let other_box = other.get_bounding_box();
        let combined = own_box.union(&other_box);
        let dimensions = combined.get_dimensions();
        proof {
            own_box.lemma_union_covers(&other_box);
            combined.lemma_small_volume();
        }
        let volume = match checked_volume(dimensions.0, dimensions.1, dimensions.2) {
            Some(v) => v,
            None => {
                assert(false);
                0
            },
        };
        proof {
            own_box.lemma_union_covers(&other_box);
        }
        let mut new_blocks = filled(volume, 0);
        let count = self.blocks.len();
        let mut index: usize = 0;
        while index < count
            invariant
                index <= count,
                count == self.blocks.len(),
                self.wf(),
                own_box == self.spec_bounding_box(),
                combined.valid(),
                combined.spec_volume() == volume,
                new_blocks.len() == volume,
                forall|a: int, b: int, c: int|
                    own_box.has_point(a, b, c) ==> #[trigger] combined.has_point(a, b, c),
                forall|k: int|
                    0 <= k < volume ==> #[trigger] new_blocks[k] == ({
                        let p = combined.spec_coords(k);
                        if own_box.has_point(p.0, p.1, p.2) && own_box.spec_index(p.0, p.1, p.2)
                            < index {
                            self.blocks[own_box.spec_index(p.0, p.1, p.2)]
                        } else {
                            0
                        }
                    }),
            decreases count - index,
        {
            let (cx, cy, cz) = own_box.index_to_coords(index);
            proof {
                assert(combined.has_point(cx as int, cy as int, cz as int));
                combined.lemma_coords_of_index(cx as int, cy as int, cz as int);
            }
            let target = combined.coords_to_index(cx, cy, cz);
            let ghost before = new_blocks@;
            new_blocks.set(target, self.blocks[index]);
            proof {
                assert forall|k: int| 0 <= k < volume implies #[trigger] new_blocks[k] == ({
                    let p = combined.spec_coords(k);
                    if own_box.has_point(p.0, p.1, p.2) && own_box.spec_index(p.0, p.1, p.2) < index
                        + 1 {
                        self.blocks[own_box.spec_index(p.0, p.1, p.2)]
                    } else {
                        0
                    }
                }) by {
                    let p = combined.spec_coords(k);
                    combined.lemma_index_of_coords(k);
                    if k != target {
                        assert(new_blocks[k] == before[k]);
                        if own_box.has_point(p.0, p.1, p.2) {
                            own_box.lemma_coords_of_index(p.0, p.1, p.2);
                        }
                    }
                }
            }
            index += 1;
        }
        let ghost start = *self;
        let mut palette: Vec<BlockState> = Vec::new();
        core::mem::swap(&mut self.palette, &mut palette);
        let air = "minecraft:air".to_string();
        let other_count = other.blocks.len();
        let ghost incoming = other.voxel_views();
        let mut index: usize = 0;
        proof {
            assert(incoming.take(0) =~= Seq::<BlockStateView>::empty());
            assert forall|k: int| 0 <= k < volume implies #[trigger] new_blocks[k] < palette.len()
                && palette[new_blocks[k] as int]@ == ({
                let p = combined.spec_coords(k);
                if other_box.has_point(p.0, p.1, p.2) && other_box.spec_index(p.0, p.1, p.2) < 0
                    && incoming[other_box.spec_index(p.0, p.1, p.2)].name != air_name() {
                    incoming[other_box.spec_index(p.0, p.1, p.2)]
                } else if own_box.has_point(p.0, p.1, p.2) {
                    start.palette[start.blocks[own_box.spec_index(p.0, p.1, p.2)] as int]@
                } else {
                    air_view()
                }
            }) by {
                let p = combined.spec_coords(k);
                if own_box.has_point(p.0, p.1, p.2) {
                    own_box.lemma_coords_of_index(p.0, p.1, p.2);
                }
            }
        }
        while index < other_count
            invariant
                index <= other_count,
                other_count == other.blocks.len(),
                other.wf(),
                start.wf(),
                air@ == air_name(),
                incoming == other.voxel_views(),
                own_box == start.spec_bounding_box(),
                other_box == other.spec_bounding_box(),
                combined.valid(),
                combined.spec_volume() == volume,
                new_blocks.len() == volume,
                forall|a: int, b: int, c: int|
                    other_box.has_point(a, b, c) ==> #[trigger] combined.has_point(a, b, c),
                palette.len() >= start.palette.len(),
                forall|i: int| 0 <= i < start.palette.len() ==> palette[i]@ == start.palette[i]@,
                deduplicated(views(palette@)),
                views(palette@) == merged_palette(
                    views(start.palette@),
                    incoming.take(index as int),
                ),
                forall|k: int|
                    0 <= k < volume ==> #[trigger] new_blocks[k] < palette.len()
                        && palette[new_blocks[k] as int]@ == ({
                        let p = combined.spec_coords(k);
                        if other_box.has_point(p.0, p.1, p.2) && other_box.spec_index(
                            p.0,
                            p.1,
                            p.2,
                        ) < index && incoming[other_box.spec_index(p.0, p.1, p.2)].name
                            != air_name() {
                            incoming[other_box.spec_index(p.0, p.1, p.2)]
                        } else if own_box.has_point(p.0, p.1, p.2) {
                            start.palette[start.blocks[own_box.spec_index(p.0, p.1, p.2)] as int]@
                        } else {
                            air_view()
                        }
                    }),
            decreases other_count - index,
        {
            let block = &other.palette[other.blocks[index]];
            proof {
                assert(incoming.take(index as int + 1).drop_last() =~= incoming.take(index as int));
                assert(incoming.take(index as int + 1).last() == incoming[index as int]);
                assert(incoming[index as int] == block@);
            }
            if block.name == air {
                proof {
                    assert forall|k: int| 0 <= k < volume implies #[trigger] new_blocks[k]
                        < palette.len() && palette[new_blocks[k] as int]@ == ({
                        let p = combined.spec_coords(k);
                        if other_box.has_point(p.0, p.1, p.2) && other_box.spec_index(
                            p.0,
                            p.1,
                            p.2,
                        ) < index + 1 && incoming[other_box.spec_index(p.0, p.1, p.2)].name
                            != air_name() {
                            incoming[other_box.spec_index(p.0, p.1, p.2)]
                        } else if own_box.has_point(p.0, p.1, p.2) {
                            start.palette[start.blocks[own_box.spec_index(p.0, p.1, p.2)] as int]@
                        } else {
                            air_view()
                        }
                    }) by {}
                }
            } else {
                let (cx, cy, cz) = other_box.index_to_coords(index);
                proof {
                    assert(combined.has_point(cx as int, cy as int, cz as int));
                    combined.lemma_coords_of_index(cx as int, cy as int, cz as int);
                    lemma_insert_deduplicated(views(palette@), block@);
                }
                let target = combined.coords_to_index(cx, cy, cz);
                let ghost palette_before = palette@;
                let palette_index = get_or_insert(&mut palette, block.clone());
                let ghost before = new_blocks@;
                new_blocks.set(target, palette_index);
                proof {
                    assert forall|k: int| 0 <= k < volume implies #[trigger] new_blocks[k]
                        < palette.len() && palette[new_blocks[k] as int]@ == ({
                        let p = combined.spec_coords(k);
                        if other_box.has_point(p.0, p.1, p.2) && other_box.spec_index(
                            p.0,
                            p.1,
                            p.2,
                        ) < index + 1 && incoming[other_box.spec_index(p.0, p.1, p.2)].name
                            != air_name() {
                            incoming[other_box.spec_index(p.0, p.1, p.2)]
                        } else if own_box.has_point(p.0, p.1, p.2) {
                            start.palette[start.blocks[own_box.spec_index(p.0, p.1, p.2)] as int]@
                        } else {
                            air_view()
                        }
                    }) by {
                        let p = combined.spec_coords(k);
                        combined.lemma_index_of_coords(k);
                        if k != target {
                            assert(new_blocks[k] == before[k]);
                            assert(before[k] < palette_before.len());
                            assert(palette[before[k] as int] == palette_before[before[k] as int]);
                            if other_box.has_point(p.0, p.1, p.2) {
                                other_box.lemma_coords_of_index(p.0, p.1, p.2);
                            }
                        }
                    }
                }
            }
            index += 1;
        }
        proof {
            assert(incoming.take(other_count as int) =~= incoming);
        }
        self.position = combined.min;
        self.size = dimensions;
        self.blocks = new_blocks;
        self.palette = palette;
        proof {
            assert(self.spec_bounding_box() == combined);
            assert(self.palette[0]@ == air_view());
            assert forall|x: int, y: int, z: int| #[trigger]
                self.block_at(x, y, z) == (if other.has_point(x, y, z) && other.block_at(
                    x,
                    y,
                    z,
                ).unwrap().name != air_name() {
                    other.block_at(x, y, z)
                } else if start.has_point(x, y, z) {
                    start.block_at(x, y, z)
                } else if self.has_point(x, y, z) {
                    Some(air_view())
                } else {
                    None
                }) by {
                if combined.has_point(x, y, z) {
                    combined.lemma_coords_of_index(x, y, z);
                    let k = combined.spec_index(x, y, z);
                    assert(self.blocks[k] < self.palette.len());
                    if other_box.has_point(x, y, z) {
                        other_box.lemma_coords_of_index(x, y, z);
                    }
                    if own_box.has_point(x, y, z) {
                        own_box.lemma_coords_of_index(x, y, z);
                    }
                }
            }
        }
        let ghost painted = *self;
        self.merge_entities(other);
        self.merge_block_entities(other);
        proof {
            assert(self.spec_bounding_box() == painted.spec_bounding_box());
            assert forall|x: int, y: int, z: int| #[trigger]
                self.block_at(x, y, z) == painted.block_at(x, y, z) by {}
        }
    }

    /// Appends copies of the entities of `other`.
    pub fn merge_entities(&mut self, other: &Region)
        ensures
            entity_views(final(self).entities@) == entity_views(old(self).entities@) + entity_views(
                other.entities@,
            ),
            final(self).name == old(self).name,
            final(self).position == old(self).position,
            final(self).size == old(self).size,
            final(self).blocks == old(self).blocks,
            final(self).palette == old(self).palette,
            final(self).block_entities == old(self).block_entities,
    {
        let mut i: usize = 0;
        proof {
            assert(other.entities@.take(0) =~= Seq::<Entity>::empty());
            assert(entity_views(self.entities@) =~= entity_views(old(self).entities@)
                + entity_views(other.entities@.take(0)));
        }
        while i < other.entities.len()
            invariant
                i <= other.entities.len(),
                entity_views(self.entities@) == entity_views(old(self).entities@) + entity_views(
                    other.entities@.take(i as int),
                ),
                self.name == old(self).name,
                self.position == old(self).position,
                self.size == old(self).size,
                self.blocks == old(self).blocks,
                self.palette == old(self).palette,
                self.block_entities == old(self).block_entities,
            decreases other.entities.len() - i,
        {
            let copy = other.entities[i].clone();
            let ghost before = self.entities@;
            self.entities.push(copy);
            proof {
                assert(other.entities@.take(i as int + 1) =~= other.entities@.take(i as int).push(
                    other.entities[i as int],
                ));
                assert(self.entities@ == before.push(copy));
                assert(entity_views(before.push(copy)) =~= entity_views(before).push(copy@));
                assert(entity_views(other.entities@.take(i as int).push(other.entities[i as int]))
                    =~= entity_views(other.entities@.take(i as int)).push(
                    other.entities[i as int]@,
                ));
                assert(entity_views(self.entities@) =~= entity_views(old(self).entities@)
                    + entity_views(other.entities@.take(i as int + 1)));
            }
            i += 1;
        }
        proof {
            assert(other.entities@.take(other.entities.len() as int) =~= other.entities@);
        }
    }

    /// Adds copies of the block entities of `other`; one of `other`
    /// replaces one of the region at the same position.
    pub fn merge_block_entities(&mut self, other: &Region)
        ensures
            final(self).block_entities@ == old(self).block_entities@.union_prefer_right(
                other.block_entities@,
            ),
            final(self).name == old(self).name,
            final(self).position == old(self).position,
            final(self).size == old(self).size,
            final(self).blocks == old(self).blocks,
            final(self).palette == old(self).palette,
            final(self).entities == old(self).entities,
    {
        let n = other.block_entities.len();
        let ghost entries = other.block_entities.entries();
        let mut i: usize = 0;
        proof {
            assert(entries.take(0) =~= Seq::empty());
            assert(self.block_entities@ =~= old(self).block_entities@.union_prefer_right(
                crate::assoc::entries_to_map(entries.take(0)),
            ));
        }
        while i < n
            invariant
                i <= n,
                n == entries.len(),
                entries == other.block_entities.entries(),
                crate::assoc::distinct_keys(entries),
                self.block_entities@ == old(self).block_entities@.union_prefer_right(
                    crate::assoc::entries_to_map(entries.take(i as int)),
                ),
                self.name == old(self).name,
                self.position == old(self).position,
                self.size == old(self).size,
                self.blocks == old(self).blocks,
                self.palette == old(self).palette,
                self.entities == old(self).entities,
            decreases n - i,
        {
            let key = other.block_entities.key_at(i);
            let value = other.block_entities.value_at(i).clone();
            proof {
                let earlier = entries.take(i as int);
                assert(!crate::assoc::has_key(earlier, key)) by {
                    if crate::assoc::has_key(earlier, key) {
                        let j = choose|j: int| 0 <= j < earlier.len() && (#[trigger] earlier[j]).0 == key;
                        assert(entries[j].0 != entries[i as int].0);
                    }
                }
                assert(crate::assoc::distinct_keys(earlier)) by {
                    assert forall|a: int, b: int| 0 <= a < b < earlier.len() implies (
                    #[trigger] earlier[a]).0 != (#[trigger] earlier[b]).0 by {
                        assert(entries[a].0 != entries[b].0);
                    }
                }
                crate::assoc::lemma_push_entry(earlier, key, value@);
                assert(entries.take(i as int + 1) =~= earlier.push((key, value@)));
                assert(self.block_entities@.insert(key, value@) =~= old(
                    self,
                ).block_entities@.union_prefer_right(
                    crate::assoc::entries_to_map(entries.take(i as int + 1)),
                ));
            }
            self.block_entities.insert(key, value);
            i += 1;
        }
        proof {
            assert(entries.take(n as int) =~= entries);
        }
    }

    /// Appends `entity` to the entities of the region.
    pub fn add_entity(&mut self, entity: Entity)
        ensures
            final(self).entities@ == old(self).entities@.push(entity),
            final(self).name == old(self).name,
            final(self).position == old(self).position,
            final(self).size == old(self).size,
            final(self).blocks == old(self).blocks,
            final(self).palette == old(self).palette,
            final(self).block_entities == old(self).block_entities,
    {
        self.entities.push(entity);
    }

    /// Takes out the entity at `index` and returns it, or returns nothing
    /// and changes nothing when there is no such entity.
    pub fn remove_entity(&mut self, index: usize) -> (r: Option<Entity>)
        ensures
            match r {
                Some(e) => index < old(self).entities.len() && e == old(self).entities[index as int]
                    && final(self).entities@ == old(self).entities@.remove(index as int),
                None => index >= old(self).entities.len() && final(self).entities == old(
                    self,
                ).entities,
            },
            final(self).name == old(self).name,
            final(self).position == old(self).position,
            final(self).size == old(self).size,
            final(self).blocks == old(self).blocks,
            final(self).palette == old(self).palette,
            final(self).block_entities == old(self).block_entities,
    {
        if index < self.entities.len() {
            Some(self.entities.remove(index))
        } else {
            None
        }
    }

    /// Stores `block_entity` at its own position, replacing what was there.
    pub fn add_block_entity(&mut self, block_entity: BlockEntity)
        ensures
            final(self).block_entities@ == old(self).block_entities@.insert(
                block_entity.position,
                block_entity@,
            ),
            final(self).name == old(self).name,
            final(self).position == old(self).position,
            final(self).size == old(self).size,
            final(self).blocks == old(self).blocks,
            final(self).palette == old(self).palette,
            final(self).entities == old(self).entities,
    {
        let key = block_entity.position;
        self.block_entities.insert(key, block_entity);
    }

    /// Takes out the block entity stored at `position` and returns it, if
    /// there is one.
    pub fn remove_block_entity(&mut self, position: (i32, i32, i32)) -> (r: Option<BlockEntity>)
        ensures
            final(self).block_entities@ == old(self).block_entities@.remove(position),
            match r {
                Some(v) => old(self).block_entities@.contains_key(position) && v@ == old(
                    self,
                ).block_entities@[position],
                None => !old(self).block_entities@.contains_key(position),
            },
            final(self).name == old(self).name,
            final(self).position == old(self).position,
            final(self).size == old(self).size,
            final(self).blocks == old(self).blocks,
            final(self).palette == old(self).palette,
            final(self).entities == old(self).entities,
    {
        self.block_entities.remove(&position)
    }

    /// Stores `block_entity` at `position`, replacing what was there.
    pub fn set_block_entity(&mut self, position: BlockPosition, block_entity: BlockEntity) -> (r:
        bool)
        ensures
            r,
            final(self).block_entities@ == old(self).block_entities@.insert(
                (position.x, position.y, position.z),
                block_entity@,
            ),
            final(self).name == old(self).name,
            final(self).position == old(self).position,
            final(self).size == old(self).size,
            final(self).blocks == old(self).blocks,
            final(self).palette == old(self).palette,
            final(self).entities == old(self).entities,
    {
        self.block_entities.insert((position.x, position.y, position.z), block_entity);
        true
    }

    /// The block entity stored at `position`, if there is one.
    pub fn get_block_entity(&self, position: BlockPosition) -> (r: Option<&BlockEntity>)
        ensures
            match r {
                Some(v) => self.block_entities@.contains_key((position.x, position.y, position.z))
                    && v@ == self.block_entities@[(position.x, position.y, position.z)],
                None => !self.block_entities@.contains_key((position.x, position.y, position.z)),
            },
    {
        self.block_entities.get(&(position.x, position.y, position.z))
    }

    /// Copies of the block entities, in the order in which their positions
    /// were first used.
    pub fn get_block_entities_as_list(&self) -> (r: Vec<BlockEntity>)
        ensures
            r.len() == self.block_entities.entries().len(),
            forall|i: int|
                0 <= i < r.len() ==> (#[trigger] r[i])@ == self.block_entities.entries()[i].1,
    {
        let n = self.block_entities.len();
        let mut list: Vec<BlockEntity> = Vec::new();
        let mut i: usize = 0;
        while i < n
            invariant
                i <= n,
                n == self.block_entities.entries().len(),
                list.len() == i,
                forall|j: int|
                    0 <= j < i ==> (#[trigger] list[j])@ == self.block_entities.entries()[j].1,
            decreases n - i,
        {
            list.push(self.block_entities.value_at(i).clone());
            i += 1;
        }
        list
    }

    /// The number of voxels that do not hold palette index 0, the empty
    /// block.
    pub fn count_blocks(&self) -> (r: usize)
        ensures
            r == self.blocks.len() - occurrences(self.blocks@, 0),
    {
        let mut count: usize = 0;
        let mut i: usize = 0;
        proof {
            assert(self.blocks@.take(0) =~= Seq::<usize>::empty());
        }
        while i < self.blocks.len()
            invariant
                i <= self.blocks.len(),
                count == i - occurrences(self.blocks@.take(i as int), 0),
            decreases self.blocks.len() - i,
        {
            proof {
                assert(self.blocks@.take(i as int + 1).drop_last() =~= self.blocks@.take(i as int));
                lemma_occurrences_bound(self.blocks@.take(i as int), 0);
            }
            if self.blocks[i] != 0 {
                count += 1;
            }
            i += 1;
        }
        proof {
            assert(self.blocks@.take(self.blocks.len() as int) =~= self.blocks@);
        }
        count
    }

    /// For every palette index the number of voxels that hold it.
    pub fn index_counts(&self) -> (r: Vec<usize>)
        requires
            forall|i: int| 0 <= i < self.blocks.len() ==> #[trigger] self.blocks[i] < self.palette.len(),
        ensures
            r.len() == self.palette.len(),
            forall|k: int| 0 <= k < r.len() ==> #[trigger] r[k] == occurrences(self.blocks@, k as usize),
    {
        let size = self.palette.len();
        let mut counts = filled(size, 0);
        let mut i: usize = 0;
        proof {
            assert(self.blocks@.take(0) =~= Seq::<usize>::empty());
        }
        while i < self.blocks.len()
            invariant
                i <= self.blocks.len(),
                size == self.palette.len(),
                counts.len() == size,
                forall|j: int|
                    0 <= j < self.blocks.len() ==> #[trigger] self.blocks[j] < self.palette.len(),
                forall|k: int|
                    0 <= k < size ==> #[trigger] counts[k] == occurrences(
                        self.blocks@.take(i as int),
                        k as usize,
                    ),
            decreases self.blocks.len() - i,
        {
            let b = self.blocks[i];
            proof {
                assert(self.blocks@.take(i as int + 1).drop_last() =~= self.blocks@.take(i as int));
                lemma_occurrences_bound(self.blocks@.take(i as int), b);
            }
            let c = counts[b];
            counts.set(b, c + 1);
            i += 1;
        }
        proof {
            assert(self.blocks@.take(self.blocks.len() as int) =~= self.blocks@);
        }
        counts
    }

    /// For every palette entry that some voxel points to, in palette
    /// order, a copy of the entry and the number of those voxels.
    pub fn count_block_types(&self) -> (r: Vec<(BlockState, usize)>)
        requires
            forall|i: int| 0 <= i < self.blocks.len() ==> #[trigger] self.blocks[i] < self.palette.len(),
        ensures
            r@.map_values(|p: (BlockState, usize)| (p.0@, p.1 as nat)) == type_counts(
                views(self.palette@),
                self.blocks@,
                self.palette.len() as nat,
            ),
    {
        let size = self.palette.len();
        let counts = self.index_counts();
        let mut result: Vec<(BlockState, usize)> = Vec::new();
        let mut k: usize = 0;
        while k < size
            invariant
                k <= size,
                size == self.palette.len(),
                counts.len() == size,
                forall|j: int|
                    0 <= j < size ==> #[trigger] counts[j] == occurrences(self.blocks@, j as usize),
                result@.map_values(|p: (BlockState, usize)| (p.0@, p.1 as nat)) == type_counts(
                    views(self.palette@),
                    self.blocks@,
                    k as nat,
                ),
            decreases size - k,
        {
            if counts[k] > 0 {
                let entry = (self.palette[k].clone(), counts[k]);
                proof {
                    assert(result@.push(entry).map_values(
                        |p: (BlockState, usize)| (p.0@, p.1 as nat),
                    ) =~= result@.map_values(|p: (BlockState, usize)| (p.0@, p.1 as nat)).push(
                        (entry.0@, entry.1 as nat),
                    ));
                }
                result.push(entry);
            }
            k += 1;
        }
        result
    }

    /// What `unpack_block_states` says of `words`: the indices they hold,
    /// or why they were rejected.
    pub open spec fn unpacks(&self, words: Seq<i64>, result: Result<Vec<usize>, DecodeError>) -> bool {
        unpacks_to(words, self.palette.len() as nat, self.blocks.len() as nat, result)
    }

    /// The blocks of the region packed into 64-bit words, with fields as
    /// wide as the palette needs.
    pub fn create_packed_block_states(&self) -> (r: Vec<i64>)
        ensures
            is_packing(r@, self.blocks@, bits_needed(self.palette.len() as nat)),
    {
        let bits = calculate_bits_per_block(self.palette.len());
        pack(&self.blocks, bits)
    }

    /// The palette indices that `packed_states` holds, one for each voxel
    /// of the region, with fields as wide as the palette needs. Words that
    /// are not exactly as many as the voxels take, and fields that do not
    /// point into the palette, are rejected.
    pub fn unpack_block_states(&self, packed_states: &[i64]) -> (r: Result<Vec<usize>, DecodeError>)
        ensures
            self.unpacks(packed_states@, r),
    {
        unpack_indices(packed_states, self.palette.len(), self.blocks.len())
    }

    /// Unpacking what `create_packed_block_states` gave succeeds and gives
    /// the blocks back.
    pub proof fn lemma_unpack_packed(&self, words: Seq<i64>, result: Result<Vec<usize>, DecodeError>)
        requires
            forall|i: int| 0 <= i < self.blocks.len() ==> #[trigger] self.blocks[i] < self.palette.len(),
            is_packing(words, self.blocks@, bits_needed(self.palette.len() as nat)),
            self.unpacks(words, result),
        ensures
            result.is_ok(),
            result.unwrap()@ == self.blocks@,
    {
        let bits = bits_needed(self.palette.len() as nat);
        vstd::arithmetic::power2::lemma2_to64_rest();
        lemma_bits_needed(self.palette.len() as nat);
        match result {
            Ok(values) => {
                lemma_pack_unpack(self.blocks@, words, values@, bits);
            },
            Err(DecodeError::PackedLength) => {},
            Err(DecodeError::PaletteIndex) => {
                let (i, value) = choose|i: int, value: usize|
                    0 <= i < self.blocks.len() && value >= self.palette.len() && #[trigger] field_holds(
                        value,
                        words,
                        bits,
                        i,
                    );
                assert forall|c: u64| c < 64 implies #[trigger] bit(value as u64, c) == bit(
                    self.blocks[i] as u64,
                    c,
                ) by {
                    if c < bits {
                        assert(bit(self.blocks[i] as u64, c) == stream_bit(words, i * bits + c));
                    } else {
                        lemma_small_value_bits(self.blocks[i] as u64, bits, c);
                    }
                }
                lemma_bits_equal(value as u64, self.blocks[i] as u64);
            },
            Err(_) => {},
        }
    }

    /// The structured values of the entries of the palette, in order.
    pub fn get_palette_nbt(&self) -> (r: Vec<NbtValue>)
        ensures
            list_view(r@) == palette_nbt(views(self.palette@)),
    {
        palette_to_nbt(&self.palette)
    }

    /// The structured values of the entities, in order.
    pub fn get_entities_nbt(&self) -> (r: Vec<NbtValue>)
        ensures
            list_view(r@) == Seq::new(
                self.entities.len() as nat,
                |i: int| entity_nbt(self.entities[i]@),
            ),
    {
        let mut list: Vec<NbtValue> = Vec::new();
        let mut i: usize = 0;
        while i < self.entities.len()
            invariant
                i <= self.entities.len(),
                list.len() == i,
                forall|j: int| 0 <= j < i ==> (#[trigger] list[j])@ == entity_nbt(self.entities[j]@),
            decreases self.entities.len() - i,
        {
            list.push(self.entities[i].to_nbt());
            i += 1;
        }
        proof {
            lemma_list_view(list@);
            assert(list_view(list@) =~= Seq::new(
                self.entities.len() as nat,
                |i: int| entity_nbt(self.entities[i]@),
            ));
        }
        list
    }

    /// The structured value of the region.
    pub fn to_nbt(&self) -> (r: NbtValue)
        requires
            self.wf(),
        ensures
            r@ == region_nbt(*self),
    {
        let mut tag = NbtMap::new();
        tag.put("Name", NbtValue::String(self.name.clone()));
        tag.put("Position", triple_to_array(self.position));
        tag.put("Size", triple_to_array(self.size));
        let mut blocks_tag = NbtMap::new();
        let mut index: usize = 0;
        while index < self.blocks.len()
            invariant
                index <= self.blocks.len(),
                self.wf(),
                blocks_tag@ == voxels_nbt(*self, index as nat),
            decreases self.blocks.len() - index,
        {
            let (x, y, z) = self.index_to_coords(index);
            blocks_tag.insert(
                coordinate_key(x, y, z),
                NbtValue::Int(#[verifier::truncate] (self.blocks[index] as i32)),
            );
            index += 1;
        }
        tag.put("Blocks", NbtValue::Compound(blocks_tag));
        tag.put("Palette", NbtValue::List(self.get_palette_nbt()));
        tag.put("Entities", NbtValue::List(self.get_entities_nbt()));
        let mut block_entities_tag = NbtMap::new();
        let count = self.block_entities.len();
        let ghost entries = self.block_entities.entries();
        let mut i: usize = 0;
        proof {
            assert(entries.take(0) =~= Seq::<PlacedEntity>::empty());
        }
        while i < count
            invariant
                i <= count,
                count == entries.len(),
                entries == self.block_entities.entries(),
                block_entities_tag@ == placed_nbt(entries.take(i as int)),
            decreases count - i,
        {
            let position = self.block_entities.key_at(i);
            let value = self.block_entities.value_at(i).to_nbt();
            proof {
                assert(entries.take(i as int + 1).drop_last() =~= entries.take(i as int));
                assert(entries.take(i as int + 1).last() == entries[i as int]);
            }
            block_entities_tag.insert(coordinate_key(position.0, position.1, position.2), value);
            i += 1;
        }
        proof {
            assert(entries.take(count as int) =~= entries);
        }
        tag.put("BlockEntities", NbtValue::Compound(block_entities_tag));
        NbtValue::Compound(tag)
    }

    /// The structured value of the region as the container format with
    /// packed blocks asks for it from one region alone.
    pub fn to_litematic_nbt(&self) -> (r: NbtMap)
        ensures
            exists|words: Seq<i64>| #[trigger]
                is_packing(words, self.blocks@, bits_needed(self.palette.len() as nat)) && r@
                    == region_packed_nbt(*self, words),
    {
        let mut region_nbt = NbtMap::new();
        region_nbt.put("Position", triple_to_array(self.position));
        region_nbt.put("Size", triple_to_array(self.size));
        region_nbt.put("BlockStatePalette", NbtValue::List(self.get_palette_nbt()));
        let block_states = self.create_packed_block_states();
        let ghost words = block_states@;
        region_nbt.put("BlockStates", NbtValue::LongArray(block_states));
        region_nbt.put("Entities", NbtValue::List(self.get_entities_nbt()));
        let nothing: Vec<NbtValue> = Vec::new();
        region_nbt.put("TileEntities", NbtValue::List(nothing));
        proof {
            assert(is_packing(words, self.blocks@, bits_needed(self.palette.len() as nat)));
            assert(region_nbt@ == region_packed_nbt(*self, words));
        }
        region_nbt
    }

    /// A copy of the palette.
    pub fn get_palette(&self) -> (r: Vec<BlockState>)
        ensures
            views(r@) == views(self.palette@),
    {
        clone_entries(&self.palette)
    }

    /// The palette index of `block`, if the palette holds it.
    pub fn get_palette_index(&self, block: &BlockState) -> (r: Option<usize>)
        ensures
            match r {
                Some(i) => i == index_in(views(self.palette@), block@) && i < self.palette.len(),
                None => index_in(views(self.palette@), block@) == self.palette.len(),
            },
    {
        position(&self.palette, block)
    }
}

/// A copy of a sequence of entities.
pub fn clone_entities(entities: &Vec<Entity>) -> (r: Vec<Entity>)
    ensures
        entity_views(r@) == entity_views(entities@),
{
    let mut copy: Vec<Entity> = Vec::new();
    let mut i: usize = 0;
    while i < entities.len()
        invariant
            i <= entities.len(),
            copy.len() == i,
            forall|j: int| 0 <= j < i ==> (#[trigger] copy[j])@ == entities[j]@,
        decreases entities.len() - i,
    {
        copy.push(entities[i].clone());
        i += 1;
    }
    proof {
        assert(entity_views(copy@) =~= entity_views(entities@));
    }
    copy
}

/// A copy of a sequence of indices.
pub fn clone_indices(indices: &Vec<usize>) -> (r: Vec<usize>)
    ensures
        r@ == indices@,
{
    let mut copy: Vec<usize> = Vec::new();
    let mut i: usize = 0;
    while i < indices.len()
        invariant
            i <= indices.len(),
            copy.len() == i,
            forall|j: int| 0 <= j < i ==> copy[j] == indices[j],
        decreases indices.len() - i,
    {
        copy.push(indices[i]);
        i += 1;
    }
    proof {
        assert(copy@ =~= indices@);
    }
    copy
}

impl Clone for Region {
    fn clone(&self) -> (r: Self)
        ensures
            r.name == self.name,
            r.position == self.position,
            r.size == self.size,
            r.blocks@ == self.blocks@,
            views(r.palette@) == views(self.palette@),
            entity_views(r.entities@) == entity_views(self.entities@),
            r.block_entities@ == self.block_entities@,
            r.block_entities.entries() == self.block_entities.entries(),
            self.wf() ==> r.wf() && forall|x: int, y: int, z: int| #[trigger]
                r.block_at(x, y, z) == self.block_at(x, y, z),
    {
        let r = Region {
            name: self.name.clone(),
            position: self.position,
            size: self.size,
            blocks: clone_indices(&self.blocks),
            palette: clone_entries(&self.palette),
            entities: clone_entities(&self.entities),
            block_entities: self.block_entities.clone(),
        };
        proof {
            if self.wf() {
            assert(r.spec_bounding_box() == self.spec_bounding_box());
            assert(views(r.palette@)[0] == views(self.palette@)[0]);
            assert forall|i: int| 0 <= i < r.palette.len() implies #[trigger] r.palette[i]@
                == self.palette[i]@ by {
                assert(views(r.palette@)[i] == views(self.palette@)[i]);
            }
            assert forall|x: int, y: int, z: int| #[trigger]
                r.block_at(x, y, z) == self.block_at(x, y, z) by {
                if self.has_point(x, y, z) {
                    self.spec_bounding_box().lemma_coords_of_index(x, y, z);
                    let k = self.spec_bounding_box().spec_index(x, y, z);
                    assert(self.blocks[k] < self.palette.len());
                    let b = self.blocks@[k] as int;
                    assert(views(r.palette@)[b] == views(self.palette@)[b]);
                }
            }
            }
        }
        r
    }
}

} // verus!
