//! Schematics: named regions with the data that describes them.
//!
//! Point-wise access goes to the default region, which is made on the first
//! write. The regions keep the order in which their names were first used;
//! wherever a result depends on an order of the regions, it is that one.

use crate::assoc::{has_key, lemma_entry_bound, lemma_update_entry};
use crate::block_entity::{BlockEntity, BlockEntityView};
use crate::block_position::BlockPosition;
use crate::block_state::{air_name, air_view, BlockState, BlockStateView};
use crate::bounding_box::BoundingBox;
use crate::entity::{entity_views, Entity, EntityView};
use crate::metadata::{metadata_nbt, Metadata};
use crate::palette::views;
use crate::region::occurrences;
use crate::region::{merged_palette, region_nbt, Region};
use crate::utils::nbt::{NbtMap, NbtValue, NbtView};
use crate::region_map::RegionMap;
use vstd::prelude::*;

verus! {

/// `region` is a region as it is made for a first write: one empty block
/// at `position`, under the name `name`, with nothing else in it.
pub open spec fn fresh_region(region: Region, name: Seq<char>, position: (i32, i32, i32)) -> bool {
    &&& region.wf()
    &&& region.name@ == name
    &&& region.position == position
    &&& region.size == (1i32, 1i32, 1i32)
    &&& views(region.palette@) == seq![air_view()]
    &&& region.blocks@ == seq![0usize]
    &&& region.entities@ == Seq::<Entity>::empty()
    &&& region.block_entities@ == Map::<(i32, i32, i32), BlockEntityView>::empty()
}

/// The first of `regions` that covers the point `(x, y, z)`, or the number
/// of regions when none does.
pub open spec fn first_holder(regions: Seq<Region>, x: int, y: int, z: int) -> int
    decreases regions.len(),
{
    if regions.len() == 0 {
        0
    } else if regions[0].has_point(x, y, z) {
        0
    } else {
        1 + first_holder(regions.drop_first(), x, y, z)
    }
}

/// `first_holder` is the least index of a region that covers the point.
pub proof fn lemma_first_holder(regions: Seq<Region>, x: int, y: int, z: int)
    ensures
        0 <= first_holder(regions, x, y, z) <= regions.len(),
        first_holder(regions, x, y, z) < regions.len() ==> regions[first_holder(
            regions,
            x,
            y,
            z,
        )].has_point(x, y, z),
        forall|j: int| 0 <= j < first_holder(regions, x, y, z) ==> !regions[j].has_point(x, y, z),
    decreases regions.len(),
{
    if regions.len() > 0 && !regions[0].has_point(x, y, z) {
        let rest = regions.drop_first();
        lemma_first_holder(rest, x, y, z);
        assert forall|j: int| 0 <= j < first_holder(regions, x, y, z) implies !regions[j].has_point(
            x,
            y,
            z,
        ) by {
            if j > 0 {
                assert(regions[j] == rest[j - 1]);
            }
        }
    }
}

/// The smallest box that covers the first `count` of `regions`.
pub open spec fn union_of(regions: Seq<Region>, count: nat) -> BoundingBox
    decreases count,
{
    if count <= 1 {
        regions[0].spec_bounding_box()
    } else {
        union_of(regions, (count - 1) as nat).spec_union(&regions[count - 1].spec_bounding_box())
    }
}

/// The block at `(x, y, z)` once the first `count` of `regions` have been
/// merged one after another into the first: the block of the last region
/// that holds one there which is not empty, else what the first region
/// holds there, else the empty block inside the box that covers them.
pub open spec fn folded_block(regions: Seq<Region>, count: nat, x: int, y: int, z: int) -> Option<
    BlockStateView,
>
    decreases count,
{
    if count <= 1 {
        regions[0].block_at(x, y, z)
    } else {
        let other = regions[count - 1];
        if other.has_point(x, y, z) && other.block_at(x, y, z).unwrap().name != air_name() {
            other.block_at(x, y, z)
        } else if union_of(regions, (count - 1) as nat).has_point(x, y, z) {
            folded_block(regions, (count - 1) as nat, x, y, z)
        } else if union_of(regions, count).has_point(x, y, z) {
            Some(air_view())
        } else {
            None
        }
    }
}

/// The palette once the first `count` of `regions` have been merged one
/// after another into the first.
pub open spec fn folded_palette(regions: Seq<Region>, count: nat) -> Seq<BlockStateView>
    decreases count,
{
    if count <= 1 {
        views(regions[0].palette@)
    } else {
        merged_palette(
            folded_palette(regions, (count - 1) as nat),
            regions[count - 1].voxel_views(),
        )
    }
}

/// The entities once the first `count` of `regions` have been merged one
/// after another into the first: those of each region, region after
/// region.
pub open spec fn folded_entities(regions: Seq<Region>, count: nat) -> Seq<EntityView>
    decreases count,
{
    if count <= 1 {
        entity_views(regions[0].entities@)
    } else {
        folded_entities(regions, (count - 1) as nat) + entity_views(regions[count - 1].entities@)
    }
}

/// The block entities once the first `count` of `regions` have been
/// merged one after another into the first: at a position that several
/// regions fill, the one of the last of them.
pub open spec fn folded_block_entities(regions: Seq<Region>, count: nat) -> Map<
    (i32, i32, i32),
    BlockEntityView,
>
    decreases count,
{
    if count <= 1 {
        regions[0].block_entities@
    } else {
        folded_block_entities(regions, (count - 1) as nat).union_prefer_right(
            regions[count - 1].block_entities@,
        )
    }
}

/// The number of voxels of the first `count` of `regions`, all together.
pub open spec fn total_voxels(regions: Seq<Region>, count: nat) -> nat
    decreases count,
{
    if count == 0 {
        0
    } else {
        total_voxels(regions, (count - 1) as nat) + regions[count - 1].blocks.len() as nat
    }
}

/// The number of voxels of the first `count` of `regions` that do not
/// hold palette index 0, all together.
pub open spec fn total_filled(regions: Seq<Region>, count: nat) -> nat
    decreases count,
{
    if count == 0 {
        0
    } else {
        (total_filled(regions, (count - 1) as nat) + regions[count - 1].blocks.len()
            - crate::region::occurrences(regions[count - 1].blocks@, 0)) as nat
    }
}

/// The compound that binds the name of each of `named` to the
/// structured value of its region; a later region replaces an earlier one
/// of the same name.
pub open spec fn regions_nbt(named: Seq<(Seq<char>, Region)>) -> Map<Seq<char>, NbtView>
    decreases named.len(),
{
    if named.len() == 0 {
        Map::empty()
    } else {
        regions_nbt(named.drop_last()).insert(named.last().0, region_nbt(named.last().1))
    }
}

/// The structured value of a schematic: its metadata, its regions by
/// name, and the name of its default region.
pub open spec fn schematic_nbt(schematic: UniversalSchematic) -> Map<Seq<char>, NbtView> {
    Map::<Seq<char>, NbtView>::empty().insert("Metadata"@, metadata_nbt(schematic.metadata@)).insert(
        "Regions"@,
        NbtView::Compound(regions_nbt(schematic.regions.named())),
    ).insert("DefaultRegion"@, NbtView::String(schematic.default_region_name@))
}

/// The number of voxels of `region` that point to one of the first `upto`
/// entries of its palette with the value `block`.
pub open spec fn view_count(region: Region, block: BlockStateView, upto: nat) -> nat
    decreases upto,
{
    if upto == 0 {
        0
    } else {
        view_count(region, block, (upto - 1) as nat) + if region.palette[upto - 1]@ == block {
            occurrences(region.blocks@, (upto - 1) as usize)
        } else {
            0nat
        }
    }
}

/// The number of voxels of the first `count` of `regions` that hold the
/// block `block`.
pub open spec fn block_total(regions: Seq<Region>, count: nat, block: BlockStateView) -> nat
    decreases count,
{
    if count == 0 {
        0
    } else {
        block_total(regions, (count - 1) as nat, block) + view_count(
            regions[count - 1],
            block,
            regions[count - 1].palette.len() as nat,
        )
    }
}

/// The number that a list of counts gives for `block`: the sum of the
/// counts that stand beside it.
pub open spec fn tally(counts: Seq<(BlockState, usize)>, block: BlockStateView) -> nat
    decreases counts.len(),
{
    if counts.len() == 0 {
        0
    } else {
        tally(counts.drop_last(), block) + if counts.last().0@ == block {
            counts.last().1 as nat
        } else {
            0nat
        }
    }
}

/// Counting goes up with the entries of the palette and with the regions.
pub proof fn lemma_counts_grow(regions: Seq<Region>, fewer: nat, more: nat, block: BlockStateView)
    requires
        fewer <= more,
    ensures
        block_total(regions, fewer, block) <= block_total(regions, more, block),
    decreases more,
{
    if fewer < more {
        lemma_counts_grow(regions, fewer, (more - 1) as nat, block);
    }
}

/// Counting goes up with the entries of the palette.
pub proof fn lemma_view_count_grows(region: Region, block: BlockStateView, fewer: nat, more: nat)
    requires
        fewer <= more,
    ensures
        view_count(region, block, fewer) <= view_count(region, block, more),
    decreases more,
{
    if fewer < more {
        lemma_view_count_grows(region, block, fewer, (more - 1) as nat);
    }
}

/// Adding to the count at `index` adds to the tally of its block and of
/// no other.
pub proof fn lemma_tally_update(
    counts: Seq<(BlockState, usize)>,
    index: int,
    entry: (BlockState, usize),
    block: BlockStateView,
)
    requires
        0 <= index < counts.len(),
        entry.0@ == counts[index].0@,
    ensures
        tally(counts.update(index, entry), block) + (if counts[index].0@ == block {
            counts[index].1 as nat
        } else {
            0nat
        }) == tally(counts, block) + (if counts[index].0@ == block {
            entry.1 as nat
        } else {
            0nat
        }),
    decreases counts.len(),
{
    let updated = counts.update(index, entry);
    if index == counts.len() - 1 {
        assert(updated.drop_last() =~= counts.drop_last());
    } else {
        assert(updated.drop_last() =~= counts.drop_last().update(index, entry));
        lemma_tally_update(counts.drop_last(), index, entry, block);
    }
}

/// The tally of a block is at least the count of any one entry that
/// holds it.
pub proof fn lemma_tally_at_least(counts: Seq<(BlockState, usize)>, index: int)
    requires
        0 <= index < counts.len(),
    ensures
        tally(counts, counts[index].0@) >= counts[index].1,
    decreases counts.len(),
{
    if index < counts.len() - 1 {
        lemma_tally_at_least(counts.drop_last(), index);
    }
}

/// A block that stands in no entry has the tally 0.
pub proof fn lemma_tally_absent(counts: Seq<(BlockState, usize)>, block: BlockStateView)
    requires
        forall|i: int| 0 <= i < counts.len() ==> (#[trigger] counts[i]).0@ != block,
    ensures
        tally(counts, block) == 0,
    decreases counts.len(),
{
    if counts.len() > 0 {
        assert(counts.last().0@ != block);
        assert forall|i: int| 0 <= i < counts.drop_last().len() implies (
        #[trigger] counts.drop_last()[i]).0@ != block by {
            assert(counts[i].0@ != block);
        }
        lemma_tally_absent(counts.drop_last(), block);
    }
}

/// The first of `regions` that holds a block entity at `position`, or the
/// number of regions when none does.
pub open spec fn first_keeper(regions: Seq<Region>, position: (i32, i32, i32)) -> int
    decreases regions.len(),
{
    if regions.len() == 0 {
        0
    } else if regions[0].block_entities@.contains_key(position) {
        0
    } else {
        1 + first_keeper(regions.drop_first(), position)
    }
}

/// `first_keeper` is the least index of a region that holds a block entity
/// at the position.
pub proof fn lemma_first_keeper(regions: Seq<Region>, position: (i32, i32, i32))
    ensures
        0 <= first_keeper(regions, position) <= regions.len(),
        first_keeper(regions, position) < regions.len() ==> regions[first_keeper(
            regions,
            position,
        )].block_entities@.contains_key(position),
        forall|j: int|
            0 <= j < first_keeper(regions, position) ==> !regions[j].block_entities@.contains_key(
                position,
            ),
    decreases regions.len(),
{
    if regions.len() > 0 && !regions[0].block_entities@.contains_key(position) {
        let rest = regions.drop_first();
        lemma_first_keeper(rest, position);
        assert forall|j: int|
            0 <= j < first_keeper(regions, position) implies !regions[j].block_entities@.contains_key(
            position,
        ) by {
            if j > 0 {
                assert(regions[j] == rest[j - 1]);
            }
        }
    }
}

/// The block entities of the first `count` of `regions`, one region after
/// another, each region in its own order.
pub open spec fn all_placed(regions: Seq<Region>, count: nat) -> Seq<BlockEntityView>
    decreases count,
{
    if count == 0 {
        Seq::empty()
    } else {
        all_placed(regions, (count - 1) as nat) + Seq::new(
            regions[count - 1].block_entities.entries().len(),
            |i: int| regions[count - 1].block_entities.entries()[i].1,
        )
    }
}

/// The box `inner` lies inside the box `outer`.
pub open spec fn inside(inner: BoundingBox, outer: BoundingBox) -> bool {
    &&& outer.min.0 <= inner.min.0 && inner.max.0 <= outer.max.0
    &&& outer.min.1 <= inner.min.1 && inner.max.1 <= outer.max.1
    &&& outer.min.2 <= inner.min.2 && inner.max.2 <= outer.max.2
}

/// A box inside a box with representable dimensions has representable
/// dimensions and no greater volume.
pub proof fn lemma_inside_fits(inner: BoundingBox, outer: BoundingBox)
    requires
        inner.ordered(),
        inside(inner, outer),
        outer.dimensions_fit(),
    ensures
        inner.valid(),
        inner.spec_volume() <= outer.spec_volume(),
{
    let (a, b, c) = (inner.width(), inner.height(), inner.length());
    let (d, e, f) = (outer.width(), outer.height(), outer.length());
    assert(a * b * c <= d * e * f) by (nonlinear_arith)
        requires
            1 <= a <= d,
            1 <= b <= e,
            1 <= c <= f,
    ;
}

/// The box of the first regions is ordered and lies inside the box of
/// more of them.
pub proof fn lemma_union_of(regions: Seq<Region>, fewer: nat, more: nat)
    requires
        1 <= fewer <= more <= regions.len(),
        forall|i: int| 0 <= i < regions.len() ==> (#[trigger] regions[i]).wf(),
    ensures
        union_of(regions, fewer).ordered(),
        union_of(regions, more).ordered(),
        inside(union_of(regions, fewer), union_of(regions, more)),
        inside(regions[more - 1].spec_bounding_box(), union_of(regions, more)),
    decreases more,
{
    assert(regions[0].wf());
    assert(regions[more - 1].wf());
    if more > 1 {
        if fewer < more {
            lemma_union_of(regions, fewer, (more - 1) as nat);
        } else {
            lemma_union_of(regions, (more - 1) as nat, (more - 1) as nat);
        }
    }
}

/// A collection of named regions with its metadata.
#[derive(Debug)]
pub struct UniversalSchematic {
    pub metadata: Metadata,
    pub regions: RegionMap,
    pub default_region_name: String,
}

impl UniversalSchematic {
    /// The invariant of a schematic: no two regions share a name, and
    /// every region is well formed.
    pub open spec fn wf(&self) -> bool {
        &&& self.regions.wf()
        &&& forall|i: int|
            0 <= i < self.regions.entries.len() ==> (#[trigger] self.regions.entries[i]).1.wf()
    }

    /// A schematic called `name`, without regions; its default region is
    /// `Main`.
    pub fn new(name: String) -> (r: Self)
        ensures
            r.wf(),
            r.metadata.name == Some(name),
            r.metadata.author.is_none(),
            r.metadata.description.is_none(),
            r.metadata.created.is_none(),
            r.metadata.modified.is_none(),
            r.metadata.lm_version.is_none(),
            r.metadata.mc_version.is_none(),
            r.metadata.we_version.is_none(),
            r.regions.entries@ == Seq::<(String, Region)>::empty(),
            r.default_region_name@ == "Main"@,
    {
        let mut metadata = Metadata::default();
        metadata.name = Some(name);
        UniversalSchematic {
            metadata,
            regions: RegionMap::new(),
            default_region_name: "Main".to_string(),
        }
    }

    /// Puts `block` at `(x, y, z)` of the region called `region_name`. A
    /// region that is not there yet is made first, as one empty block at
    /// the point. Returns `false`, and changes nothing, when the region
    /// cannot grow as far as the point.
    pub fn set_block_in_region(
        &mut self,
        region_name: &str,
        x: i32,
        y: i32,
        z: i32,
        block: BlockState,
    ) -> (r: bool)
        requires
            old(self).wf(),
        ensures
            final(self).wf(),
            final(self).metadata == old(self).metadata,
            final(self).default_region_name == old(self).default_region_name,
            r == (old(self).regions@.contains_key(region_name@) ==> {
                let before = old(self).regions@[region_name@];
                before.has_point(x as int, y as int, z as int) || before.can_expand(
                    x as int,
                    y as int,
                    z as int,
                )
            }),
            !r ==> *final(self) == *old(self),
            r ==> {
                &&& final(self).regions@.contains_key(region_name@)
                &&& final(self).regions@ == old(self).regions@.insert(
                    region_name@,
                    final(self).regions@[region_name@],
                )
                &&& exists|before: Region|
                    {
                        &&& if old(self).regions@.contains_key(region_name@) {
                            before == old(self).regions@[region_name@]
                        } else {
                            fresh_region(before, region_name@, (x, y, z))
                        }
                        &&& #[trigger] final(self).regions@[region_name@].wrote(
                            &before,
                            x as int,
                            y as int,
                            z as int,
                            block@,
                        )
                    }
            },
    {
        match self.regions.position(region_name) {
            Some(i) => {
                let ghost before = self.regions.entries[i as int].1;
                let ghost named_before = self.regions.named();
                proof {
                    assert(named_before[i as int].0 == region_name@);
                    lemma_entry_bound(named_before, i as int);
                }
                if !self.regions.entries[i].1.is_in_region(x, y, z)
                    && !self.regions.entries[i].1.fits_expanded(x, y, z) {
                    return false;
                }
                let ok = self.regions.entries[i].1.set_block(x, y, z, block);
                proof {
                    let after = self.regions.entries[i as int].1;
                    assert(self.regions.named() =~= named_before.update(
                        i as int,
                        (named_before[i as int].0, after),
                    ));
                    lemma_update_entry(named_before, i as int, after);
                    assert(after.wrote(&before, x as int, y as int, z as int, block@));
                    assert(self.regions@[region_name@] == after);
                    assert(old(self).regions@[region_name@] == before);
                    assert(self.regions@[region_name@].wrote(
                        &before,
                        x as int,
                        y as int,
                        z as int,
                        block@,
                    ));
                    assert forall|j: int| 0 <= j < self.regions.entries.len() implies (
                    #[trigger] self.regions.entries[j]).1.wf() by {
                        if j != i {
                            assert(self.regions.entries[j] == old(self).regions.entries[j]);
                        }
                    }
                }
                ok
            },
            None => {
                let mut region = Region::single(region_name.to_string(), (x, y, z));
                let ghost before = region;
                proof {
                    assert(before.spec_bounding_box().has_point(x as int, y as int, z as int));
                }
                let ok = region.set_block(x, y, z, block);
                let ghost after = region;
                self.regions.insert(region_name.to_string(), region);
                proof {
                    assert(fresh_region(before, region_name@, (x, y, z)));
                    assert(after.wrote(&before, x as int, y as int, z as int, block@));
                    assert(self.regions@[region_name@] == after);
                    assert(self.regions@[region_name@].wrote(
                        &before,
                        x as int,
                        y as int,
                        z as int,
                        block@,
                    ));
                    assert(ok);
                    assert forall|j: int| 0 <= j < self.regions.entries.len() implies (
                    #[trigger] self.regions.entries[j]).1.wf() by {
                        if j < old(self).regions.entries.len() {
                            assert(self.regions.entries[j] == old(self).regions.entries[j]);
                        }
                    }
                }
                ok
            },
        }
    }

    /// Puts `block` at `(x, y, z)` of the default region, which is made
    /// first when it is not there yet.
    pub fn set_block(&mut self, x: i32, y: i32, z: i32, block: BlockState) -> (r: bool)
        requires
            old(self).wf(),
        ensures
            final(self).wf(),
            final(self).metadata == old(self).metadata,
            final(self).default_region_name == old(self).default_region_name,
            r == (old(self).regions@.contains_key(old(self).default_region_name@) ==> {
                let before = old(self).regions@[old(self).default_region_name@];
                before.has_point(x as int, y as int, z as int) || before.can_expand(
                    x as int,
                    y as int,
                    z as int,
                )
            }),
            !r ==> *final(self) == *old(self),
            r ==> {
                let name = old(self).default_region_name@;
                &&& final(self).regions@.contains_key(name)
                &&& final(self).regions@ == old(self).regions@.insert(name, final(self).regions@[name])
                &&& exists|before: Region|
                    {
                        &&& if old(self).regions@.contains_key(name) {
                            before == old(self).regions@[name]
                        } else {
                            fresh_region(before, name, (x, y, z))
                        }
                        &&& #[trigger] final(self).regions@[name].wrote(
                            &before,
                            x as int,
                            y as int,
                            z as int,
                            block@,
                        )
                    }
            },
    {
        let region_name = self.default_region_name.clone();
        self.set_block_in_region(region_name.as_str(), x, y, z, block)
    }

    /// The block at `(x, y, z)` in the first region that covers the point,
    /// or nothing when no region covers it.
    pub fn get_block(&self, x: i32, y: i32, z: i32) -> (r: Option<&BlockState>)
        requires
            self.wf(),
        ensures
            ({
                let regions = self.regions.regions();
                let i = first_holder(regions, x as int, y as int, z as int);
                match r {
                    Some(b) => i < regions.len() && regions[i].block_at(
                        x as int,
                        y as int,
                        z as int,
                    ) == Some(b@),
                    None => i == regions.len(),
                }
            }),
    {
        let ghost regions = self.regions.regions();
        proof {
            lemma_first_holder(regions, x as int, y as int, z as int);
        }
        let mut i: usize = 0;
        while i < self.regions.entries.len()
            invariant
                i <= self.regions.entries.len(),
                self.wf(),
                regions == self.regions.regions(),
                forall|j: int| 0 <= j < i ==> !(#[trigger] regions[j]).has_point(
                    x as int,
                    y as int,
                    z as int,
                ),
            decreases self.regions.entries.len() - i,
        {
            let region = &self.regions.entries[i].1;
            proof {
                assert(regions[i as int] == *region);
                assert(region.wf());
            }
            if region.get_bounding_box().contains((x, y, z)) {
                proof {
                    lemma_first_holder(regions, x as int, y as int, z as int);
                    let f = first_holder(regions, x as int, y as int, z as int);
                    if f < i {
                        assert(!regions[f].has_point(x as int, y as int, z as int));
                    }
                }
                return region.get_block(x, y, z);
            }
            i += 1;
        }
        proof {
            lemma_first_holder(regions, x as int, y as int, z as int);
            let f = first_holder(regions, x as int, y as int, z as int);
            if f < regions.len() {
                assert(!regions[f].has_point(x as int, y as int, z as int));
            }
        }
        None
    }

    /// Adds `region` under its own name. Returns `false`, and changes
    /// nothing, when a region of that name is there already.
    pub fn add_region(&mut self, region: Region) -> (r: bool)
        requires
            old(self).wf(),
            region.wf(),
        ensures
            final(self).wf(),
            r == !old(self).regions@.contains_key(region.name@),
            r ==> final(self).regions.entries@.len() == old(self).regions.entries@.len() + 1
                && final(self).regions.entries@.last().0@ == region.name@
                && final(self).regions.entries@.last().1 == region
                && final(self).regions.entries@.drop_last() == old(self).regions.entries@
                && final(self).regions@ == old(self).regions@.insert(region.name@, region),
            !r ==> *final(self) == *old(self),
            final(self).metadata == old(self).metadata,
            final(self).default_region_name == old(self).default_region_name,
    {
        if self.regions.contains_key(region.name.as_str()) {
            false
        } else {
            let name = region.name.clone();
            self.regions.insert(name, region);
            proof {
                assert(final(self).regions.entries@.drop_last() =~= old(self).regions.entries@);
                assert forall|j: int| 0 <= j < self.regions.entries.len() implies (
                #[trigger] self.regions.entries[j]).1.wf() by {
                    if j < old(self).regions.entries.len() {
                        assert(self.regions.entries[j] == old(self).regions.entries[j]);
                    }
                }
            }
            true
        }
    }

    /// Takes out the region called `name` and returns it, if there is one.
    pub fn remove_region(&mut self, name: &str) -> (r: Option<Region>)
        requires
            old(self).wf(),
        ensures
            final(self).wf(),
            final(self).regions@ == old(self).regions@.remove(name@),
            match r {
                Some(region) => old(self).regions@.contains_key(name@) && region == old(
                    self,
                ).regions@[name@] && region.wf(),
                None => !old(self).regions@.contains_key(name@) && *final(self) == *old(self),
            },
            final(self).metadata == old(self).metadata,
            final(self).default_region_name == old(self).default_region_name,
    {
        let r = self.regions.remove(name);
        proof {
            if r.is_some() {
                let i = choose|i: int|
                    0 <= i < old(self).regions.entries.len() && (#[trigger] old(
                        self,
                    ).regions.entries[i]).0@ == name@ && self.regions.entries@ == old(
                        self,
                    ).regions.entries@.remove(i);
                assert(old(self).regions.named()[i].0 == name@);
                assert(old(self).regions.named()[i].1 == old(self).regions.entries[i].1);
                lemma_entry_bound(old(self).regions.named(), i);
                assert(old(self).regions.entries[i].1.wf());
                assert(r.unwrap() == old(self).regions.entries[i].1);
                assert forall|j: int| 0 <= j < self.regions.entries.len() implies (
                #[trigger] self.regions.entries[j]).1.wf() by {
                    if j < i {
                        assert(self.regions.entries[j] == old(self).regions.entries[j]);
                    } else {
                        assert(self.regions.entries[j] == old(self).regions.entries[j + 1]);
                    }
                }
            }
        }
        r
    }

    /// The region called `name`, if there is one.
    pub fn get_region(&self, name: &str) -> (r: Option<&Region>)
        ensures
            match r {
                Some(region) => self.regions@.contains_key(name@) && (self.regions.wf() ==> *region
                    == self.regions@[name@]) && (self.wf() ==> region.wf()),
                None => !self.regions@.contains_key(name@),
            },
    {
        let r = self.regions.get(name);
        proof {
            if r.is_some() && self.wf() {
                let region = r.unwrap();
                let i = choose|i: int|
                    0 <= i < self.regions.entries.len() && (#[trigger] self.regions.entries[i]).0@
                        == name@ && *region == self.regions.entries[i].1;
                assert(self.regions.entries[i].1.wf());
            }
        }
        r
    }
    /// The region called `name`, to be changed in place, if there is one.
    /// The schematic stays well formed when the region does.
    pub fn get_region_mut(&mut self, name: &str) -> (r: Option<&mut Region>)
        requires
            old(self).regions.wf(),
        ensures
            match r {
                Some(region) => old(self).regions@.contains_key(name@) && *region == old(
                    self,
                ).regions@[name@] && exists|i: int|
                    0 <= i < old(self).regions.entries.len() && (#[trigger] old(
                        self,
                    ).regions.entries[i]).0@ == name@ && final(self).regions.entries@ == old(
                        self,
                    ).regions.entries@.update(i, (old(self).regions.entries[i].0, *final(region))),
                None => !old(self).regions@.contains_key(name@) && *final(self) == *old(self),
            },
            final(self).metadata == old(self).metadata,
            final(self).default_region_name == old(self).default_region_name,
    {
        match self.regions.position(name) {
            Some(i) => {
                proof {
                    assert(self.regions.named()[i as int].0 == name@);
                    lemma_entry_bound(self.regions.named(), i as int);
                }
                Some(&mut self.regions.entries[i].1)
            },
            None => None,
        }
    }

    /// The number of voxels of all regions, cut to 32 bits.
    pub fn total_volume(&self) -> (r: i32)
        ensures
            r == total_voxels(self.regions.regions(), self.regions.entries.len() as nat) as i32,
    {
        let mut total: u128 = 0;
        let mut i: usize = 0;
        let ghost regions = self.regions.regions();
        while i < self.regions.entries.len()
            invariant
                i <= self.regions.entries.len(),
                regions == self.regions.regions(),
                total == total_voxels(regions, i as nat),
                total <= i * 0xffff_ffff_ffff_ffff,
            decreases self.regions.entries.len() - i,
        {
            proof {
                assert(regions[i as int] == self.regions.entries[i as int].1);
                assert((i + 1) * 0xffff_ffff_ffff_ffff == i * 0xffff_ffff_ffff_ffff
                    + 0xffff_ffff_ffff_ffff) by (nonlinear_arith);
                assert(i * 0xffff_ffff_ffff_ffff <= 0xffff_ffff_ffff_ffff * 0xffff_ffff_ffff_ffff)
                    by (nonlinear_arith)
                    requires
                        i <= 0xffff_ffff_ffff_ffff,
                ;
            }
            total = total + self.regions.entries[i].1.blocks.len() as u128;
            i += 1;
        }
        #[verifier::truncate]
        (total as i32)
    }

    /// The number of voxels of all regions that do not hold the empty
    /// block, cut to 32 bits.
    pub fn total_blocks(&self) -> (r: i32)
        ensures
            r == total_filled(self.regions.regions(), self.regions.entries.len() as nat) as i32,
    {
        let mut total: u128 = 0;
        let mut i: usize = 0;
        let ghost regions = self.regions.regions();
        while i < self.regions.entries.len()
            invariant
                i <= self.regions.entries.len(),
                regions == self.regions.regions(),
                total == total_filled(regions, i as nat),
                total <= i * 0xffff_ffff_ffff_ffff,
            decreases self.regions.entries.len() - i,
        {
            proof {
                assert(regions[i as int] == self.regions.entries[i as int].1);
                crate::region::lemma_occurrences_bound(regions[i as int].blocks@, 0);
                assert((i + 1) * 0xffff_ffff_ffff_ffff == i * 0xffff_ffff_ffff_ffff
                    + 0xffff_ffff_ffff_ffff) by (nonlinear_arith);
                assert(i * 0xffff_ffff_ffff_ffff <= 0xffff_ffff_ffff_ffff * 0xffff_ffff_ffff_ffff)
                    by (nonlinear_arith)
                    requires
                        i <= 0xffff_ffff_ffff_ffff,
                ;
            }
            total = total + self.regions.entries[i].1.count_blocks() as u128;
            i += 1;
        }
        #[verifier::truncate]
        (total as i32)
    }

    /// The structured value of the schematic.
    pub fn to_nbt(&self) -> (r: NbtMap)
        requires
            self.wf(),
        ensures
            r@ == schematic_nbt(*self),
    {
        let mut root = NbtMap::new();
        root.put("Metadata", self.metadata.to_nbt());
        let mut regions_tag = NbtMap::new();
        let ghost named = self.regions.named();
        let mut i: usize = 0;
        proof {
            assert(named.take(0) =~= Seq::<(Seq<char>, Region)>::empty());
        }
        while i < self.regions.entries.len()
            invariant
                i <= self.regions.entries.len(),
                self.wf(),
                named == self.regions.named(),
                regions_tag@ == regions_nbt(named.take(i as int)),
            decreases self.regions.entries.len() - i,
        {
            let name = self.regions.entries[i].0.clone();
            let value = self.regions.entries[i].1.to_nbt();
            proof {
                assert(named.take(i as int + 1).drop_last() =~= named.take(i as int));
                assert(named.take(i as int + 1).last() == named[i as int]);
            }
            regions_tag.insert(name, value);
            i += 1;
        }
        proof {
            assert(named.take(self.regions.entries.len() as int) =~= named);
        }
        root.put("Regions", NbtValue::Compound(regions_tag));
        root.put("DefaultRegion", NbtValue::String(self.default_region_name.clone()));
        root
    }

    /// How many voxels hold each block, all regions together: one entry
    /// for every block that some voxel holds, with the number of those
    /// voxels.
    pub fn count_block_types(&self) -> (r: Vec<(BlockState, usize)>)
        requires
            self.wf(),
            forall|block: BlockStateView|
                block_total(self.regions.regions(), self.regions.entries.len() as nat, block)
                    <= usize::MAX,
        ensures
            forall|block: BlockStateView|
                tally(r@, block) == #[trigger] block_total(
                    self.regions.regions(),
                    self.regions.entries.len() as nat,
                    block,
                ),
            forall|i: int, j: int| 0 <= i < j < r.len() ==> (#[trigger] r[i]).0@ != (#[trigger] r[j]).0@,
            forall|i: int| 0 <= i < r.len() ==> (#[trigger] r[i]).1 > 0,
    {
        let mut counts: Vec<(BlockState, usize)> = Vec::new();
        let ghost regions = self.regions.regions();
        let ghost total = self.regions.entries.len() as nat;
        let mut n: usize = 0;
        while n < self.regions.entries.len()
            invariant
                n <= self.regions.entries.len(),
                self.wf(),
                regions == self.regions.regions(),
                total == self.regions.entries.len(),
                total == regions.len(),
                forall|block: BlockStateView| block_total(regions, total, block) <= usize::MAX,
                forall|block: BlockStateView|
                    tally(counts@, block) == #[trigger] block_total(regions, n as nat, block),
                forall|i: int, j: int|
                    0 <= i < j < counts.len() ==> (#[trigger] counts[i]).0@ != (
                    #[trigger] counts[j]).0@,
                forall|i: int| 0 <= i < counts.len() ==> (#[trigger] counts[i]).1 > 0,
            decreases self.regions.entries.len() - n,
        {
            let region = &self.regions.entries[n].1;
            proof {
                assert(regions[n as int] == *region);
                assert(region.wf());
            }
            let found = region.index_counts();
            let mut k: usize = 0;
            while k < region.palette.len()
                invariant
                    k <= region.palette.len(),
                    n < total,
                    total == regions.len(),
                    regions[n as int] == *region,
                    found.len() == region.palette.len(),
                    forall|i: int|
                        0 <= i < found.len() ==> #[trigger] found[i] == occurrences(
                            region.blocks@,
                            i as usize,
                        ),
                    forall|block: BlockStateView| block_total(regions, total, block) <= usize::MAX,
                    forall|block: BlockStateView|
                        tally(counts@, block) == #[trigger] block_total(regions, n as nat, block)
                            + view_count(*region, block, k as nat),
                    forall|i: int, j: int|
                        0 <= i < j < counts.len() ==> (#[trigger] counts[i]).0@ != (
                        #[trigger] counts[j]).0@,
                    forall|i: int| 0 <= i < counts.len() ==> (#[trigger] counts[i]).1 > 0,
                decreases region.palette.len() - k,
            {
                let count = found[k];
                let ghost block = region.palette[k as int]@;
                let ghost before = counts@;
                if count > 0 {
                    let mut at: usize = 0;
                    let mut place: Option<usize> = None;
                    while at < counts.len() && place.is_none()
                        invariant
                            at <= counts.len(),
                            k < region.palette.len(),
                            block == region.palette[k as int]@,
                            match place {
                                Some(p) => p < counts.len() && counts[p as int].0@ == block,
                                None => forall|i: int|
                                    0 <= i < at ==> (#[trigger] counts[i]).0@ != block,
                            },
                        decreases counts.len() - at + if place.is_none() {
                            1int
                        } else {
                            0int
                        },
                    {
                        if counts[at].0 == region.palette[k] {
                            place = Some(at);
                        } else {
                            at += 1;
                        }
                    }
                    proof {
                        lemma_view_count_grows(
                            *region,
                            block,
                            (k + 1) as nat,
                            region.palette.len() as nat,
                        );
                        lemma_counts_grow(regions, (n + 1) as nat, total, block);
                        assert(tally(before, block) == block_total(regions, n as nat, block)
                            + view_count(*region, block, k as nat));
                    }
                    proof {
                        assert(view_count(*region, block, (k + 1) as nat) == view_count(
                            *region,
                            block,
                            k as nat,
                        ) + count);
                        assert(block_total(regions, (n + 1) as nat, block) == block_total(
                            regions,
                            n as nat,
                            block,
                        ) + view_count(*region, block, region.palette.len() as nat));
                        assert(tally(before, block) + count <= usize::MAX);
                        if place.is_some() {
                            lemma_tally_at_least(before, place.unwrap() as int);
                        }
                    }
                    match place {
                        Some(p) => {
                            let sum = counts[p].1 + count;
                            let entry = (region.palette[k].clone(), sum);
                            proof {
                                lemma_tally_update(before, p as int, entry, block);
                                assert forall|other: BlockStateView|
                                    tally(before.update(p as int, entry), other)
                                        == #[trigger] block_total(regions, n as nat, other)
                                        + view_count(*region, other, (k + 1) as nat) by {
                                    lemma_tally_update(before, p as int, entry, other);
                                }
                            }
                            counts.set(p, entry);
                        },
                        None => {
                            let entry = (region.palette[k].clone(), count);
                            proof {
                                lemma_tally_absent(before, block);
                                assert(before.push(entry).drop_last() =~= before);
                            }
                            counts.push(entry);
                        },
                    }
                }
                k += 1;
            }
            let ghost done = n;
            n += 1;
            proof {
                assert forall|block: BlockStateView|
                    tally(counts@, block) == #[trigger] block_total(regions, n as nat, block) by {
                    assert(tally(counts@, block) == block_total(regions, done as nat, block)
                        + view_count(*region, block, region.palette.len() as nat));
                    assert(regions[n - 1] == *region);
                }
            }
        }
        counts
    }

    /// Whether the schematic is well formed.
    pub fn is_well_formed(&self) -> (r: bool)
        ensures
            r == self.wf(),
    {
        if !self.regions.is_well_formed() {
            return false;
        }
        let mut i: usize = 0;
        while i < self.regions.entries.len()
            invariant
                i <= self.regions.entries.len(),
                forall|j: int| 0 <= j < i ==> (#[trigger] self.regions.entries[j]).1.wf(),
            decreases self.regions.entries.len() - i,
        {
            if !self.regions.entries[i].1.is_well_formed() {
                return false;
            }
            i += 1;
        }
        true
    }

    /// Whether the box that covers every region has representable
    /// dimensions of at most `limit` and a volume that can be the length
    /// of an array.
    pub fn fits_within(&self, limit: i32) -> (r: bool)
        requires
            self.wf(),
            self.regions.entries.len() > 0,
            limit >= 0,
        ensures
            r == ({
                let b = union_of(self.regions.regions(), self.regions.entries.len() as nat);
                &&& b.width() <= limit
                &&& b.height() <= limit
                &&& b.length() <= limit
                &&& b.small() || b.spec_volume() <= usize::MAX
            }),
    {
        let b = self.get_bounding_box();
        let w: i64 = b.max.0 as i64 - b.min.0 as i64 + 1;
        let h: i64 = b.max.1 as i64 - b.min.1 as i64 + 1;
        let l: i64 = b.max.2 as i64 - b.min.2 as i64 + 1;
        let ghost regions = self.regions.regions();
        proof {
            assert forall|i: int| 0 <= i < regions.len() implies (#[trigger] regions[i]).wf() by {
                assert(regions[i] == self.regions.entries[i].1);
            }
            lemma_union_of(
                regions,
                self.regions.entries.len() as nat,
                self.regions.entries.len() as nat,
            );
        }
        if w > limit as i64 || h > limit as i64 || l > limit as i64 {
            return false;
        }
        proof {
            b.lemma_small_volume();
        }
        crate::region::checked_volume(w as i32, h as i32, l as i32).is_some()
    }

    /// The block entity at `position` in the first region that holds one
    /// there.
    pub fn get_block_entity(&self, position: BlockPosition) -> (r: Option<&BlockEntity>)
        ensures
            ({
                let regions = self.regions.regions();
                let key = (position.x, position.y, position.z);
                let i = first_keeper(regions, key);
                match r {
                    Some(e) => i < regions.len() && e@ == regions[i].block_entities@[key],
                    None => i == regions.len(),
                }
            }),
    {
        let ghost regions = self.regions.regions();
        let ghost key = (position.x, position.y, position.z);
        let mut i: usize = 0;
        while i < self.regions.entries.len()
            invariant
                i <= self.regions.entries.len(),
                regions == self.regions.regions(),
                key == (position.x, position.y, position.z),
                forall|j: int| 0 <= j < i ==> !(#[trigger] regions[j]).block_entities@.contains_key(key),
            decreases self.regions.entries.len() - i,
        {
            proof {
                assert(regions[i as int] == self.regions.entries[i as int].1);
            }
            match self.regions.entries[i].1.get_block_entity(position) {
                Some(found) => {
                    proof {
                        lemma_first_keeper(regions, key);
                        let f = first_keeper(regions, key);
                        if f < i {
                            assert(!regions[f].block_entities@.contains_key(key));
                        }
                    }
                    return Some(found);
                },
                None => {},
            }
            i += 1;
        }
        proof {
            lemma_first_keeper(regions, key);
            let f = first_keeper(regions, key);
            if f < regions.len() {
                assert(!regions[f].block_entities@.contains_key(key));
            }
        }
        None
    }

    /// Copies of the block entities of all regions, one region after
    /// another.
    pub fn get_block_entities_as_list(&self) -> (r: Vec<BlockEntity>)
        ensures
            r@.map_values(|e: BlockEntity| e@) == all_placed(
                self.regions.regions(),
                self.regions.entries.len() as nat,
            ),
    {
        let ghost regions = self.regions.regions();
        let mut list: Vec<BlockEntity> = Vec::new();
        let mut i: usize = 0;
        proof {
            assert(list@.map_values(|e: BlockEntity| e@) =~= all_placed(regions, 0));
        }
        while i < self.regions.entries.len()
            invariant
                i <= self.regions.entries.len(),
                regions == self.regions.regions(),
                list@.map_values(|e: BlockEntity| e@) == all_placed(regions, i as nat),
            decreases self.regions.entries.len() - i,
        {
            let mut more = self.regions.entries[i].1.get_block_entities_as_list();
            proof {
                assert(regions[i as int] == self.regions.entries[i as int].1);
                assert((list@ + more@).map_values(|e: BlockEntity| e@) =~= all_placed(
                    regions,
                    i as nat,
                ) + Seq::new(
                    regions[i as int].block_entities.entries().len(),
                    |k: int| regions[i as int].block_entities.entries()[k].1,
                ));
            }
            list.append(&mut more);
            i += 1;
        }
        list
    }

    /// The names of the regions, in order.
    pub fn get_region_names(&self) -> (r: Vec<String>)
        ensures
            r.len() == self.regions.entries.len(),
            forall|i: int| 0 <= i < r.len() ==> (#[trigger] r[i])@ == self.regions.entries[i].0@,
    {
        let mut names: Vec<String> = Vec::new();
        let mut i: usize = 0;
        while i < self.regions.entries.len()
            invariant
                i <= self.regions.entries.len(),
                names.len() == i,
                forall|j: int| 0 <= j < i ==> (#[trigger] names[j])@ == self.regions.entries[j].0@,
            decreases self.regions.entries.len() - i,
        {
            names.push(self.regions.entries[i].0.clone());
            i += 1;
        }
        names
    }

    /// The region at `index` in the order of the regions, if there is one.
    pub fn get_region_from_index(&self, index: usize) -> (r: Option<&Region>)
        ensures
            match r {
                Some(region) => index < self.regions.entries.len() && *region
                    == self.regions.entries[index as int].1,
                None => index >= self.regions.entries.len(),
            },
    {
        if index < self.regions.entries.len() {
            Some(&self.regions.entries[index].1)
        } else {
            None
        }
    }

    /// The block at `(x, y, z)` of the region called `region_name`, or
    /// nothing when there is no such region or the point lies outside it.
    pub fn get_block_from_region(&self, region_name: &str, x: i32, y: i32, z: i32) -> (r: Option<
        &BlockState,
    >)
        requires
            self.wf(),
        ensures
            match r {
                Some(b) => self.regions@.contains_key(region_name@)
                    && self.regions@[region_name@].block_at(x as int, y as int, z as int) == Some(
                    b@,
                ),
                None => !self.regions@.contains_key(region_name@)
                    || self.regions@[region_name@].block_at(
                    x as int,
                    y as int,
                    z as int,
                ).is_none(),
            },
    {
        match self.get_region(region_name) {
            Some(region) => region.get_block(x, y, z),
            None => None,
        }
    }

    /// The bounding box of the region called `region_name`, if there is
    /// such a region.
    pub fn get_region_bounding_box(&self, region_name: &str) -> (r: Option<BoundingBox>)
        requires
            self.wf(),
        ensures
            match r {
                Some(b) => self.regions@.contains_key(region_name@) && b
                    == self.regions@[region_name@].spec_bounding_box(),
                None => !self.regions@.contains_key(region_name@),
            },
    {
        match self.get_region(region_name) {
            Some(region) => Some(region.get_bounding_box()),
            None => None,
        }
    }

    /// The smallest box that covers every region, or nothing when there is
    /// no region.
    pub fn get_schematic_bounding_box(&self) -> (r: Option<BoundingBox>)
        requires
            self.wf(),
        ensures
            match r {
                Some(b) => self.regions.entries.len() > 0 && b == union_of(
                    self.regions.regions(),
                    self.regions.entries.len() as nat,
                ),
                None => self.regions.entries.len() == 0,
            },
    {
        if self.regions.is_empty() {
            return None;
        }
        let ghost regions = self.regions.regions();
        let mut bounding_box = self.regions.entries[0].1.get_bounding_box();
        let mut i: usize = 1;
        while i < self.regions.entries.len()
            invariant
                1 <= i <= self.regions.entries.len(),
                self.wf(),
                regions == self.regions.regions(),
                bounding_box == union_of(regions, i as nat),
            decreases self.regions.entries.len() - i,
        {
            let region = &self.regions.entries[i].1;
            proof {
                assert(regions[i as int] == *region);
            }
            bounding_box = bounding_box.union(&region.get_bounding_box());
            i += 1;
        }
        Some(bounding_box)
    }

    /// The smallest box that covers every region; the box of the origin
    /// alone when there is no region.
    pub fn get_bounding_box(&self) -> (r: BoundingBox)
        requires
            self.wf(),
        ensures
            r == if self.regions.entries.len() == 0 {
                BoundingBox { min: (0i32, 0i32, 0i32), max: (0i32, 0i32, 0i32) }
            } else {
                union_of(self.regions.regions(), self.regions.entries.len() as nat)
            },
    {
        match self.get_schematic_bounding_box() {
            Some(b) => b,
            None => BoundingBox::new((0, 0, 0), (0, 0, 0)),
        }
    }

    /// The dimensions of the box that covers every region.
    pub fn get_dimensions(&self) -> (r: (i32, i32, i32))
        requires
            self.wf(),
            self.regions.entries.len() > 0 ==> union_of(
                self.regions.regions(),
                self.regions.entries.len() as nat,
            ).dimensions_fit(),
        ensures
            self.regions.entries.len() == 0 ==> r == (1i32, 1i32, 1i32),
            self.regions.entries.len() > 0 ==> {
                let b = union_of(self.regions.regions(), self.regions.entries.len() as nat);
                r.0 == b.width() && r.1 == b.height() && r.2 == b.length()
            },
    {
        let bounding_box = self.get_bounding_box();
        bounding_box.get_dimensions()
    }

    /// All regions merged into one: a copy of the first region, with the
    /// others merged into it one after another in their order. A single
    /// region keeps its anchor and its size; a merged one is anchored at
    /// the minimum corner of its box, with positive sizes.
    pub fn get_merged_region(&self) -> (r: Region)
        requires
            self.wf(),
            self.regions.entries.len() > 0,
            union_of(self.regions.regions(), self.regions.entries.len() as nat).dimensions_fit(),
            union_of(self.regions.regions(), self.regions.entries.len() as nat).small() || union_of(
                self.regions.regions(),
                self.regions.entries.len() as nat,
            ).spec_volume() <= usize::MAX,
        ensures
            r.wf(),
            r.name == self.regions.entries[0].1.name,
            r.spec_bounding_box() == union_of(
                self.regions.regions(),
                self.regions.entries.len() as nat,
            ),
            views(r.palette@) == folded_palette(
                self.regions.regions(),
                self.regions.entries.len() as nat,
            ),
            forall|x: int, y: int, z: int| #[trigger]
                r.block_at(x, y, z) == folded_block(
                    self.regions.regions(),
                    self.regions.entries.len() as nat,
                    x,
                    y,
                    z,
                ),
            if self.regions.entries.len() == 1 {
                r.position == self.regions.entries[0].1.position && r.size
                    == self.regions.entries[0].1.size
            } else {
                &&& r.position == r.spec_bounding_box().min
                &&& r.size.0 == r.spec_bounding_box().width()
                &&& r.size.1 == r.spec_bounding_box().height()
                &&& r.size.2 == r.spec_bounding_box().length()
            },
            entity_views(r.entities@) == folded_entities(
                self.regions.regions(),
                self.regions.entries.len() as nat,
            ),
            r.block_entities@ == folded_block_entities(
                self.regions.regions(),
                self.regions.entries.len() as nat,
            ),
    {
        let ghost regions = self.regions.regions();
        let count = self.regions.entries.len();
        proof {
            assert(regions[0] == self.regions.entries[0].1);
            assert forall|i: int| 0 <= i < regions.len() implies (#[trigger] regions[i]).wf() by {
                assert(regions[i] == self.regions.entries[i].1);
            }
            lemma_union_of(regions, count as nat, count as nat);
            union_of(regions, count as nat).lemma_small_volume();
        }
        let mut merged = self.regions.entries[0].1.clone();
        let mut i: usize = 1;
        while i < count
            invariant
                1 <= i <= count,
                count == self.regions.entries.len(),
                self.wf(),
                regions == self.regions.regions(),
                forall|j: int| 0 <= j < regions.len() ==> (#[trigger] regions[j]).wf(),
                union_of(regions, count as nat).dimensions_fit(),
                union_of(regions, count as nat).spec_volume() <= usize::MAX,
                merged.wf(),
                merged.name == self.regions.entries[0].1.name,
                merged.spec_bounding_box() == union_of(regions, i as nat),
                views(merged.palette@) == folded_palette(regions, i as nat),
                forall|x: int, y: int, z: int| #[trigger]
                    merged.block_at(x, y, z) == folded_block(regions, i as nat, x, y, z),
                if i == 1 {
                    merged.position == self.regions.entries[0].1.position && merged.size
                        == self.regions.entries[0].1.size
                } else {
                    &&& merged.position == merged.spec_bounding_box().min
                    &&& merged.size.0 == merged.spec_bounding_box().width()
                    &&& merged.size.1 == merged.spec_bounding_box().height()
                    &&& merged.size.2 == merged.spec_bounding_box().length()
                },
                entity_views(merged.entities@) == folded_entities(regions, i as nat),
                merged.block_entities@ == folded_block_entities(regions, i as nat),
            decreases count - i,
        {
            let other = &self.regions.entries[i].1;
            proof {
                assert(regions[i as int] == *other);
                lemma_union_of(regions, (i + 1) as nat, count as nat);
                lemma_inside_fits(union_of(regions, (i + 1) as nat), union_of(regions, count as nat));
            }
            let ghost before = merged;
            merged.merge(other);
            proof {
                assert forall|x: int, y: int, z: int| #[trigger]
                    merged.block_at(x, y, z) == folded_block(regions, (i + 1) as nat, x, y, z) by {
                    assert(before.block_at(x, y, z) == folded_block(regions, i as nat, x, y, z));
                }
            }
            i += 1;
        }
        merged
    }

    /// Stores `block_entity` at its own position in the region called
    /// `region_name`. A region that is not there yet is made first, as one
    /// empty block at that position.
    pub fn add_block_entity_in_region(&mut self, region_name: &str, block_entity: BlockEntity) -> (r:
        bool)
        requires
            old(self).wf(),
        ensures
            r,
            final(self).wf(),
            final(self).metadata == old(self).metadata,
            final(self).default_region_name == old(self).default_region_name,
            final(self).regions@.contains_key(region_name@),
            final(self).regions@ == old(self).regions@.insert(
                region_name@,
                final(self).regions@[region_name@],
            ),
            exists|before: Region|
                {
                    &&& if old(self).regions@.contains_key(region_name@) {
                        before == old(self).regions@[region_name@]
                    } else {
                        fresh_region(before, region_name@, block_entity.position)
                    }
                    &&& #[trigger] holds_block_entity(
                        final(self).regions@[region_name@],
                        before,
                        block_entity@,
                    )
                },
    {
        match self.regions.position(region_name) {
            Some(i) => {
                let ghost before = self.regions.entries[i as int].1;
                let ghost named_before = self.regions.named();
                proof {
                    assert(named_before[i as int].0 == region_name@);
                    lemma_entry_bound(named_before, i as int);
                }
                self.regions.entries[i].1.add_block_entity(block_entity);
                proof {
                    let after = self.regions.entries[i as int].1;
                    assert(self.regions.named() =~= named_before.update(
                        i as int,
                        (named_before[i as int].0, after),
                    ));
                    lemma_update_entry(named_before, i as int, after);
                    assert(self.regions@[region_name@] == after);
                    assert(holds_block_entity(self.regions@[region_name@], before, block_entity@));
                    assert(after.spec_bounding_box() == before.spec_bounding_box());
                    assert forall|j: int| 0 <= j < self.regions.entries.len() implies (
                    #[trigger] self.regions.entries[j]).1.wf() by {
                        if j != i {
                            assert(self.regions.entries[j] == old(self).regions.entries[j]);
                        }
                    }
                }
            },
            None => {
                let mut region = Region::single(region_name.to_string(), block_entity.position);
                let ghost before = region;
                region.add_block_entity(block_entity);
                let ghost after = region;
                proof {
                    assert(after.spec_bounding_box() == before.spec_bounding_box());
                }
                self.regions.insert(region_name.to_string(), region);
                proof {
                    assert(fresh_region(before, region_name@, block_entity.position));
                    assert(self.regions@[region_name@] == after);
                    assert(holds_block_entity(self.regions@[region_name@], before, block_entity@));
                    assert forall|j: int| 0 <= j < self.regions.entries.len() implies (
                    #[trigger] self.regions.entries[j]).1.wf() by {
                        if j < old(self).regions.entries.len() {
                            assert(self.regions.entries[j] == old(self).regions.entries[j]);
                        }
                    }
                }
            },
        }
        true
    }

    /// Stores `block_entity` at its own position in the default region.
    pub fn add_block_entity(&mut self, block_entity: BlockEntity) -> (r: bool)
        requires
            old(self).wf(),
        ensures
            r,
            final(self).wf(),
            final(self).metadata == old(self).metadata,
            final(self).default_region_name == old(self).default_region_name,
            ({
                let name = old(self).default_region_name@;
                &&& final(self).regions@.contains_key(name)
                &&& final(self).regions@ == old(self).regions@.insert(name, final(self).regions@[name])
                &&& exists|before: Region|
                    {
                        &&& if old(self).regions@.contains_key(name) {
                            before == old(self).regions@[name]
                        } else {
                            fresh_region(before, name, block_entity.position)
                        }
                        &&& #[trigger] holds_block_entity(
                            final(self).regions@[name],
                            before,
                            block_entity@,
                        )
                    }
            }),
    {
        let region_name = self.default_region_name.clone();
        self.add_block_entity_in_region(region_name.as_str(), block_entity)
    }

    /// Takes the block entity at `position` out of the region called
    /// `region_name` and returns it; nothing when there is no such region
    /// or no block entity there.
    pub fn remove_block_entity_in_region(
        &mut self,
        region_name: &str,
        position: (i32, i32, i32),
    ) -> (r: Option<BlockEntity>)
        requires
            old(self).wf(),
        ensures
            final(self).wf(),
            final(self).metadata == old(self).metadata,
            final(self).default_region_name == old(self).default_region_name,
            match r {
                Some(v) => old(self).regions@.contains_key(region_name@) && old(
                    self,
                ).regions@[region_name@].block_entities@.contains_key(position) && v@ == old(
                    self,
                ).regions@[region_name@].block_entities@[position],
                None => !old(self).regions@.contains_key(region_name@) || !old(
                    self,
                ).regions@[region_name@].block_entities@.contains_key(position),
            },
            !old(self).regions@.contains_key(region_name@) ==> *final(self) == *old(self),
            old(self).regions@.contains_key(region_name@) ==> {
                let before = old(self).regions@[region_name@];
                let after = final(self).regions@[region_name@];
                &&& final(self).regions@ == old(self).regions@.insert(region_name@, after)
                &&& after.block_entities@ == before.block_entities@.remove(position)
                &&& after.name == before.name
                &&& after.position == before.position
                &&& after.size == before.size
                &&& after.blocks == before.blocks
                &&& after.palette == before.palette
                &&& after.entities == before.entities
            },
    {
        match self.regions.position(region_name) {
            Some(i) => {
                let ghost before = self.regions.entries[i as int].1;
                let ghost named_before = self.regions.named();
                proof {
                    assert(named_before[i as int].0 == region_name@);
                    lemma_entry_bound(named_before, i as int);
                }
                let r = self.regions.entries[i].1.remove_block_entity(position);
                proof {
                    let after = self.regions.entries[i as int].1;
                    assert(self.regions.named() =~= named_before.update(
                        i as int,
                        (named_before[i as int].0, after),
                    ));
                    lemma_update_entry(named_before, i as int, after);
                    assert(self.regions@[region_name@] == after);
                    assert(after.spec_bounding_box() == before.spec_bounding_box());
                    assert forall|j: int| 0 <= j < self.regions.entries.len() implies (
                    #[trigger] self.regions.entries[j]).1.wf() by {
                        if j != i {
                            assert(self.regions.entries[j] == old(self).regions.entries[j]);
                        }
                    }
                }
                r
            },
            None => None,
        }
    }

    /// Takes the block entity at `position` out of the default region and
    /// returns it.
    pub fn remove_block_entity(&mut self, position: (i32, i32, i32)) -> (r: Option<BlockEntity>)
        requires
            old(self).wf(),
        ensures
            final(self).wf(),
            final(self).metadata == old(self).metadata,
            final(self).default_region_name == old(self).default_region_name,
            ({
                let name = old(self).default_region_name@;
                match r {
                    Some(v) => old(self).regions@.contains_key(name) && old(
                        self,
                    ).regions@[name].block_entities@.contains_key(position) && v@ == old(
                        self,
                    ).regions@[name].block_entities@[position],
                    None => !old(self).regions@.contains_key(name) || !old(
                        self,
                    ).regions@[name].block_entities@.contains_key(position),
                }
            }),
            !old(self).regions@.contains_key(old(self).default_region_name@) ==> *final(self)
                == *old(self),
            old(self).regions@.contains_key(old(self).default_region_name@) ==> {
                let name = old(self).default_region_name@;
                let before = old(self).regions@[name];
                let after = final(self).regions@[name];
                &&& final(self).regions@ == old(self).regions@.insert(name, after)
                &&& after.block_entities@ == before.block_entities@.remove(position)
                &&& after.name == before.name
                &&& after.position == before.position
                &&& after.size == before.size
                &&& after.blocks == before.blocks
                &&& after.palette == before.palette
                &&& after.entities == before.entities
            },
    {
        let region_name = self.default_region_name.clone();
        self.remove_block_entity_in_region(region_name.as_str(), position)
    }

    /// Appends `entity` to the region called `region_name`. A region that
    /// is not there yet is made first, as one empty block at `anchor`, the
    /// block position nearest to the entity.
    pub fn add_entity_in_region(
        &mut self,
        region_name: &str,
        entity: Entity,
        anchor: (i32, i32, i32),
    ) -> (r: bool)
        requires
            old(self).wf(),
        ensures
            r,
            final(self).wf(),
            final(self).metadata == old(self).metadata,
            final(self).default_region_name == old(self).default_region_name,
            final(self).regions@.contains_key(region_name@),
            final(self).regions@ == old(self).regions@.insert(
                region_name@,
                final(self).regions@[region_name@],
            ),
            exists|before: Region|
                {
                    &&& if old(self).regions@.contains_key(region_name@) {
                        before == old(self).regions@[region_name@]
                    } else {
                        fresh_region(before, region_name@, anchor)
                    }
                    &&& #[trigger] holds_entity(final(self).regions@[region_name@], before, entity)
                },
    {
        match self.regions.position(region_name) {
            Some(i) => {
                let ghost before = self.regions.entries[i as int].1;
                let ghost named_before = self.regions.named();
                proof {
                    assert(named_before[i as int].0 == region_name@);
                    lemma_entry_bound(named_before, i as int);
                }
                self.regions.entries[i].1.add_entity(entity);
                proof {
                    let after = self.regions.entries[i as int].1;
                    assert(self.regions.named() =~= named_before.update(
                        i as int,
                        (named_before[i as int].0, after),
                    ));
                    lemma_update_entry(named_before, i as int, after);
                    assert(self.regions@[region_name@] == after);
                    assert(holds_entity(self.regions@[region_name@], before, entity));
                    assert(after.spec_bounding_box() == before.spec_bounding_box());
                    assert forall|j: int| 0 <= j < self.regions.entries.len() implies (
                    #[trigger] self.regions.entries[j]).1.wf() by {
                        if j != i {
                            assert(self.regions.entries[j] == old(self).regions.entries[j]);
                        }
                    }
                }
            },
            None => {
                let mut region = Region::single(region_name.to_string(), anchor);
                let ghost before = region;
                region.add_entity(entity);
                let ghost after = region;
                proof {
                    assert(after.spec_bounding_box() == before.spec_bounding_box());
                }
                self.regions.insert(region_name.to_string(), region);
                proof {
                    assert(fresh_region(before, region_name@, anchor));
                    assert(self.regions@[region_name@] == after);
                    assert(holds_entity(self.regions@[region_name@], before, entity));
                    assert forall|j: int| 0 <= j < self.regions.entries.len() implies (
                    #[trigger] self.regions.entries[j]).1.wf() by {
                        if j < old(self).regions.entries.len() {
                            assert(self.regions.entries[j] == old(self).regions.entries[j]);
                        }
                    }
                }
            },
        }
        true
    }

    /// Appends `entity` to the default region; `anchor` is the block
    /// position nearest to the entity.
    pub fn add_entity(&mut self, entity: Entity, anchor: (i32, i32, i32)) -> (r: bool)
        requires
            old(self).wf(),
        ensures
            r,
            final(self).wf(),
            final(self).metadata == old(self).metadata,
            final(self).default_region_name == old(self).default_region_name,
            ({
                let name = old(self).default_region_name@;
                &&& final(self).regions@.contains_key(name)
                &&& final(self).regions@ == old(self).regions@.insert(name, final(self).regions@[name])
                &&& exists|before: Region|
                    {
                        &&& if old(self).regions@.contains_key(name) {
                            before == old(self).regions@[name]
                        } else {
                            fresh_region(before, name, anchor)
                        }
                        &&& #[trigger] holds_entity(final(self).regions@[name], before, entity)
                    }
            }),
    {
        let region_name = self.default_region_name.clone();
        self.add_entity_in_region(region_name.as_str(), entity, anchor)
    }

    /// Takes the entity at `index` out of the region called `region_name`
    /// and returns it; nothing when there is no such region or entity.
    pub fn remove_entity_in_region(&mut self, region_name: &str, index: usize) -> (r: Option<Entity>)
        requires
            old(self).wf(),
        ensures
            final(self).wf(),
            final(self).metadata == old(self).metadata,
            final(self).default_region_name == old(self).default_region_name,
            match r {
                Some(e) => old(self).regions@.contains_key(region_name@) && index < old(
                    self,
                ).regions@[region_name@].entities.len() && e == old(
                    self,
                ).regions@[region_name@].entities[index as int],
                None => !old(self).regions@.contains_key(region_name@) || index >= old(
                    self,
                ).regions@[region_name@].entities.len(),
            },
            !old(self).regions@.contains_key(region_name@) ==> *final(self) == *old(self),
            old(self).regions@.contains_key(region_name@) ==> {
                let before = old(self).regions@[region_name@];
                let after = final(self).regions@[region_name@];
                &&& final(self).regions@ == old(self).regions@.insert(region_name@, after)
                &&& after.entities@ == if index < before.entities.len() {
                    before.entities@.remove(index as int)
                } else {
                    before.entities@
                }
                &&& after.name == before.name
                &&& after.position == before.position
                &&& after.size == before.size
                &&& after.blocks == before.blocks
                &&& after.palette == before.palette
                &&& after.block_entities == before.block_entities
            },
    {
        match self.regions.position(region_name) {
            Some(i) => {
                let ghost before = self.regions.entries[i as int].1;
                let ghost named_before = self.regions.named();
                proof {
                    assert(named_before[i as int].0 == region_name@);
                    lemma_entry_bound(named_before, i as int);
                }
                let r = self.regions.entries[i].1.remove_entity(index);
                proof {
                    let after = self.regions.entries[i as int].1;
                    assert(self.regions.named() =~= named_before.update(
                        i as int,
                        (named_before[i as int].0, after),
                    ));
                    lemma_update_entry(named_before, i as int, after);
                    assert(self.regions@[region_name@] == after);
                    assert(after.spec_bounding_box() == before.spec_bounding_box());
                    assert forall|j: int| 0 <= j < self.regions.entries.len() implies (
                    #[trigger] self.regions.entries[j]).1.wf() by {
                        if j != i {
                            assert(self.regions.entries[j] == old(self).regions.entries[j]);
                        }
                    }
                }
                r
            },
            None => None,
        }
    }

    /// Takes the entity at `index` out of the default region and returns
    /// it.
    pub fn remove_entity(&mut self, index: usize) -> (r: Option<Entity>)
        requires
            old(self).wf(),
        ensures
            final(self).wf(),
            final(self).metadata == old(self).metadata,
            final(self).default_region_name == old(self).default_region_name,
            ({
                let name = old(self).default_region_name@;
                match r {
                    Some(e) => old(self).regions@.contains_key(name) && index < old(
                        self,
                    ).regions@[name].entities.len() && e == old(
                        self,
                    ).regions@[name].entities[index as int],
                    None => !old(self).regions@.contains_key(name) || index >= old(
                        self,
                    ).regions@[name].entities.len(),
                }
            }),
            !old(self).regions@.contains_key(old(self).default_region_name@) ==> *final(self)
                == *old(self),
            old(self).regions@.contains_key(old(self).default_region_name@) ==> {
                let name = old(self).default_region_name@;
                let before = old(self).regions@[name];
                let after = final(self).regions@[name];
                &&& final(self).regions@ == old(self).regions@.insert(name, after)
                &&& after.entities@ == if index < before.entities.len() {
                    before.entities@.remove(index as int)
                } else {
                    before.entities@
                }
                &&& after.name == before.name
                &&& after.position == before.position
                &&& after.size == before.size
                &&& after.blocks == before.blocks
                &&& after.palette == before.palette
                &&& after.block_entities == before.block_entities
            },
    {
        let region_name = self.default_region_name.clone();
        self.remove_entity_in_region(region_name.as_str(), index)
    }
}

impl Clone for UniversalSchematic {
    fn clone(&self) -> (r: Self)
        ensures
            r.metadata == self.metadata,
            r.default_region_name == self.default_region_name,
            r.regions.entries.len() == self.regions.entries.len(),
            forall|i: int|
                #![trigger r.regions.entries[i]]
                0 <= i < r.regions.entries.len() ==> {
                    &&& r.regions.entries[i].0 == self.regions.entries[i].0
                    &&& r.regions.entries[i].1.name == self.regions.entries[i].1.name
                    &&& r.regions.entries[i].1.position == self.regions.entries[i].1.position
                    &&& r.regions.entries[i].1.size == self.regions.entries[i].1.size
                    &&& r.regions.entries[i].1.blocks@ == self.regions.entries[i].1.blocks@
                    &&& views(r.regions.entries[i].1.palette@) == views(
                        self.regions.entries[i].1.palette@,
                    )
                    &&& entity_views(r.regions.entries[i].1.entities@) == entity_views(
                        self.regions.entries[i].1.entities@,
                    )
                    &&& r.regions.entries[i].1.block_entities@
                        == self.regions.entries[i].1.block_entities@
                },
            self.wf() ==> r.wf(),
    {
        UniversalSchematic {
            metadata: self.metadata.clone(),
            regions: self.regions.clone(),
            default_region_name: self.default_region_name.clone(),
        }
    }
}

/// `after` is `before` with `block_entity` stored at its own position and
/// nothing else changed.
pub open spec fn holds_block_entity(after: Region, before: Region, block_entity: BlockEntityView) -> bool {
    &&& after.block_entities@ == before.block_entities@.insert(block_entity.position, block_entity)
    &&& after.name == before.name
    &&& after.position == before.position
    &&& after.size == before.size
    &&& after.blocks == before.blocks
    &&& after.palette == before.palette
    &&& after.entities == before.entities
}

/// `after` is `before` with `entity` appended and nothing else changed.
pub open spec fn holds_entity(after: Region, before: Region, entity: Entity) -> bool {
    &&& after.entities@ == before.entities@.push(entity)
    &&& after.name == before.name
    &&& after.position == before.position
    &&& after.size == before.size
    &&& after.blocks == before.blocks
    &&& after.palette == before.palette
    &&& after.block_entities == before.block_entities
}

} // verus!
