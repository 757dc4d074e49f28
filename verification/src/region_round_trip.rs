//! Laws of the structured value of a region: what `Region::to_nbt` writes,
//! `Region::from_nbt` reads back.

use crate::assoc::{distinct_keys, entries_to_map, has_key, lemma_entry_bound};
use crate::block_entity::{
    block_entity_nbt,
    block_entity_of_nbt,
    block_entity_of_tag,
    position_of_nbt,
    BlockEntityView,
    PlacedEntity,
};
use crate::block_state::{air_view, lemma_block_state_nbt_round_trip, BlockStateView};
use crate::bounding_box::BoundingBox;
use crate::entity::{entity_nbt, entity_of_nbt, entity_of_tag, entity_views, EntityView};
use crate::palette::{
    deduplicated,
    inserted,
    inserted_all,
    lemma_index_in_is,
    palette_nbt,
    palette_of_nbt,
    views,
};
use crate::region::{
    box_fits,
    box_volume,
    placed_nbt,
    region_nbt,
    triple_array,
    voxels_nbt,
    Region,
};
use crate::region_nbt::{
    box_of,
    placed_entities,
    indices_fit,
    is_point_text,
    is_point_text_in,
    is_region_of_nbt,
    names_points,
    names_points_of,
    region_parts,
    three_ints,
    voxel_key,
    voxel_value,
};
use crate::text::{coordinate_text, lemma_coordinate_injective};
use crate::utils::nbt::{
    compound_at,
    int_array_at,
    list_at,
    string_at,
    strings_nbt,
    strings_of,
    NbtView,
};
use vstd::prelude::*;

verus! {

/// The seven names of the structured value of a region differ from one
/// another.
pub proof fn lemma_region_names()
    ensures
        "Name"@ != "Position"@,
        "Name"@ != "Size"@,
        "Name"@ != "Blocks"@,
        "Name"@ != "Palette"@,
        "Name"@ != "Entities"@,
        "Name"@ != "BlockEntities"@,
        "Position"@ != "Size"@,
        "Position"@ != "Blocks"@,
        "Position"@ != "Palette"@,
        "Position"@ != "Entities"@,
        "Position"@ != "BlockEntities"@,
        "Size"@ != "Blocks"@,
        "Size"@ != "Palette"@,
        "Size"@ != "Entities"@,
        "Size"@ != "BlockEntities"@,
        "Blocks"@ != "Palette"@,
        "Blocks"@ != "Entities"@,
        "Blocks"@ != "BlockEntities"@,
        "Palette"@ != "Entities"@,
        "Palette"@ != "BlockEntities"@,
        "Entities"@ != "BlockEntities"@,
{
    reveal_strlit("Name");
    reveal_strlit("Position");
    reveal_strlit("Size");
    reveal_strlit("Blocks");
    reveal_strlit("Palette");
    reveal_strlit("Entities");
    reveal_strlit("BlockEntities");
    assert("Name"@.len() == 4);
    assert("Position"@.len() == 8);
    assert("Size"@.len() == 4);
    assert("Blocks"@.len() == 6);
    assert("Palette"@.len() == 7);
    assert("Entities"@.len() == 8);
    assert("BlockEntities"@.len() == 13);
    assert("Name"@[0] == 'N');
    assert("Size"@[0] == 'S');
    assert("Position"@[0] == 'P');
    assert("Entities"@[0] == 'E');
}

/// Two voxels of a box with the same text are the same voxel.
pub proof fn lemma_voxel_key_injective(b: BoundingBox, i: int, j: int)
    requires
        b.ordered(),
        0 <= i < b.spec_volume(),
        0 <= j < b.spec_volume(),
        voxel_key(b, i) == voxel_key(b, j),
    ensures
        i == j,
{
    let p = b.spec_coords(i);
    let q = b.spec_coords(j);
    lemma_coordinate_injective(p.0, p.1, p.2, q.0, q.1, q.2);
    b.lemma_index_of_coords(i);
    b.lemma_index_of_coords(j);
}

/// What the compound of the first `count` voxels of a region binds: the
/// text of each of those voxels to its palette index, and no other name.
pub proof fn lemma_voxels_nbt(region: Region, count: nat)
    requires
        region.spec_bounding_box().ordered(),
        count <= region.spec_bounding_box().spec_volume(),
    ensures
        forall|i: int|
            0 <= i < count ==> voxels_nbt(region, count).contains_key(
                #[trigger] voxel_key(region.spec_bounding_box(), i),
            ) && voxels_nbt(region, count)[voxel_key(region.spec_bounding_box(), i)]
                == NbtView::Int(region.blocks[i] as i32),
        forall|key: Seq<char>| #[trigger]
            voxels_nbt(region, count).contains_key(key) ==> exists|i: int|
                0 <= i < count && key == #[trigger] voxel_key(region.spec_bounding_box(), i),
    decreases count,
{
    let b = region.spec_bounding_box();
    if count > 0 {
        let earlier = voxels_nbt(region, (count - 1) as nat);
        let last = voxel_key(b, count - 1);
        lemma_voxels_nbt(region, (count - 1) as nat);
        assert(voxels_nbt(region, count) == earlier.insert(
            last,
            NbtView::Int(region.blocks[count - 1] as i32),
        ));
        assert forall|i: int| 0 <= i < count implies voxels_nbt(region, count).contains_key(
            #[trigger] voxel_key(b, i),
        ) && voxels_nbt(region, count)[voxel_key(b, i)] == NbtView::Int(
            region.blocks[i] as i32,
        ) by {
            if i < count - 1 {
                if voxel_key(b, i) == last {
                    lemma_voxel_key_injective(b, i, count - 1);
                }
            }
        }
        assert forall|key: Seq<char>| #[trigger]
            voxels_nbt(region, count).contains_key(key) implies exists|i: int|
            0 <= i < count && key == #[trigger] voxel_key(b, i) by {
            if key == last {
                assert(key == voxel_key(b, count - 1));
            } else {
                assert(earlier.contains_key(key));
                let i = choose|i: int| 0 <= i < count - 1 && key == #[trigger] voxel_key(b, i);
                assert(key == voxel_key(b, i));
            }
        }
    }
}

/// Every name that the compound of block entities binds is the text of a
/// point.
pub proof fn lemma_placed_nbt_names(entries: Seq<PlacedEntity>)
    ensures
        names_points(placed_nbt(entries)),
    decreases entries.len(),
{
    if entries.len() > 0 {
        let last = entries.last();
        lemma_placed_nbt_names(entries.drop_last());
        assert forall|key: Seq<char>|
            placed_nbt(entries).contains_key(key) && #[trigger] placed_nbt(
                entries,
            )[key] is Compound implies is_point_text(key) by {
            if key == coordinate_text(last.0.0 as int, last.0.1 as int, last.0.2 as int) {
                assert(is_point_text(key));
            } else {
                assert(placed_nbt(entries.drop_last()).contains_key(key));
                assert(placed_nbt(entries.drop_last())[key] is Compound);
            }
        }
    }
}

/// The three names of the structured value of an entity or a block
/// entity differ from one another.
pub proof fn lemma_entity_names()
    ensures
        "id"@ != "Pos"@,
        "id"@ != "NBT"@,
        "Pos"@ != "NBT"@,
{
    reveal_strlit("id");
    reveal_strlit("Pos");
    reveal_strlit("NBT");
    assert("id"@.len() == 2);
    assert("Pos"@.len() == 3);
    assert("NBT"@.len() == 3);
    assert("Pos"@[0] == 'P');
    assert("NBT"@[0] == 'N');
}

/// Reading the structured value of an entity gives the entity back.
pub proof fn lemma_entity_nbt_round_trip(e: EntityView)
    ensures
        entity_of_tag(entity_nbt(e)) == Some(e),
{
    lemma_entity_names();
    let m = entity_nbt(e)->Compound_0;
    let position = seq![
        NbtView::Double(e.position.0),
        NbtView::Double(e.position.1),
        NbtView::Double(e.position.2),
    ];
    assert(string_at(m, "id"@) == Some(e.id));
    assert(list_at(m, "Pos"@) == Some(position));
    assert(position.len() == 3);
    assert(position[0] == NbtView::Double(e.position.0));
    assert(position[1] == NbtView::Double(e.position.1));
    assert(position[2] == NbtView::Double(e.position.2));
    assert(compound_at(m, "NBT"@) == Some(strings_nbt(e.nbt)));
    assert(strings_of(strings_nbt(e.nbt)) =~= e.nbt);
    assert(entity_of_nbt(m) == Ok::<EntityView, crate::error::NbtError>(e));
}

/// Reading the structured value of a block entity gives the block entity
/// back.
pub proof fn lemma_block_entity_nbt_round_trip(e: BlockEntityView)
    ensures
        block_entity_of_tag(block_entity_nbt(e)) == Some(e),
{
    lemma_entity_names();
    let m = block_entity_nbt(e)->Compound_0;
    let position = seq![
        NbtView::Int(e.position.0),
        NbtView::Int(e.position.1),
        NbtView::Int(e.position.2),
    ];
    assert(string_at(m, "id"@) == Some(e.id));
    assert(m["Pos"@] == NbtView::List(position));
    assert(position.len() == 3);
    assert(position[0] == NbtView::Int(e.position.0));
    assert(position[1] == NbtView::Int(e.position.1));
    assert(position[2] == NbtView::Int(e.position.2));
    assert(position_of_nbt(m) == Ok::<(i32, i32, i32), crate::error::NbtError>(e.position));
    assert(compound_at(m, "NBT"@) == Some(strings_nbt(e.nbt)));
    assert(strings_of(strings_nbt(e.nbt)) =~= e.nbt);
    assert(block_entity_of_nbt(m) == Ok::<BlockEntityView, crate::error::NbtError>(e));
}

/// Where every tag of a list describes an entity, the entities that the
/// list describes are those, in the order of the tags.
pub proof fn lemma_all_entities_read(tags: Seq<NbtView>, entities: Seq<EntityView>)
    requires
        tags.len() == entities.len(),
        forall|i: int| 0 <= i < tags.len() ==> entity_of_tag(#[trigger] tags[i]) == Some(entities[i]),
    ensures
        tags.filter_map(|tag: NbtView| entity_of_tag(tag)) == entities,
    decreases tags.len(),
{
    let f = |tag: NbtView| entity_of_tag(tag);
    if tags.len() == 0 {
        assert(tags.filter_map(f) =~= entities);
    } else {
        lemma_all_entities_read(tags.drop_last(), entities.drop_last());
        assert(f(tags.last()) == Some(entities.last()));
        assert(tags.filter_map(f) == tags.drop_last().filter_map(f) + seq![entities.last()]);
        assert(entities.drop_last() + seq![entities.last()] =~= entities);
    }
}

/// What the compound of block entities binds: the text of the position of
/// each entry to the structured value of its block entity, and no other
/// name.
pub proof fn lemma_placed_nbt(entries: Seq<PlacedEntity>)
    requires
        distinct_keys(entries),
    ensures
        forall|i: int|
            0 <= i < entries.len() ==> placed_nbt(entries).contains_key(
                coordinate_text(
                    (#[trigger] entries[i]).0.0 as int,
                    entries[i].0.1 as int,
                    entries[i].0.2 as int,
                ),
            ) && placed_nbt(entries)[coordinate_text(
                entries[i].0.0 as int,
                entries[i].0.1 as int,
                entries[i].0.2 as int,
            )] == block_entity_nbt(entries[i].1),
        forall|key: Seq<char>| #[trigger]
            placed_nbt(entries).contains_key(key) ==> exists|i: int|
                0 <= i < entries.len() && key == coordinate_text(
                    (#[trigger] entries[i]).0.0 as int,
                    entries[i].0.1 as int,
                    entries[i].0.2 as int,
                ),
    decreases entries.len(),
{
    if entries.len() > 0 {
        let earlier = entries.drop_last();
        let last = entries.last();
        let last_key = coordinate_text(last.0.0 as int, last.0.1 as int, last.0.2 as int);
        assert(distinct_keys(earlier)) by {
            assert forall|i: int, j: int| 0 <= i < j < earlier.len() implies (#[trigger] earlier[i]).0
                != (#[trigger] earlier[j]).0 by {
                assert(entries[i].0 != entries[j].0);
            }
        }
        lemma_placed_nbt(earlier);
        assert forall|i: int| 0 <= i < entries.len() implies placed_nbt(entries).contains_key(
            coordinate_text(
                (#[trigger] entries[i]).0.0 as int,
                entries[i].0.1 as int,
                entries[i].0.2 as int,
            ),
        ) && placed_nbt(entries)[coordinate_text(
            entries[i].0.0 as int,
            entries[i].0.1 as int,
            entries[i].0.2 as int,
        )] == block_entity_nbt(entries[i].1) by {
            if i < entries.len() - 1 {
                assert(earlier[i] == entries[i]);
                let key = coordinate_text(
                    entries[i].0.0 as int,
                    entries[i].0.1 as int,
                    entries[i].0.2 as int,
                );
                if key == last_key {
                    lemma_coordinate_injective(
                        entries[i].0.0 as int,
                        entries[i].0.1 as int,
                        entries[i].0.2 as int,
                        last.0.0 as int,
                        last.0.1 as int,
                        last.0.2 as int,
                    );
                    assert(entries[i].0 != entries[entries.len() - 1].0);
                }
            }
        }
        assert forall|key: Seq<char>| #[trigger]
            placed_nbt(entries).contains_key(key) implies exists|i: int|
            0 <= i < entries.len() && key == coordinate_text(
                (#[trigger] entries[i]).0.0 as int,
                entries[i].0.1 as int,
                entries[i].0.2 as int,
            ) by {
            if key == last_key {
                assert(entries[entries.len() - 1] == last);
            } else {
                assert(placed_nbt(earlier).contains_key(key));
                let i = choose|i: int|
                    0 <= i < earlier.len() && key == coordinate_text(
                        (#[trigger] earlier[i]).0.0 as int,
                        earlier[i].0.1 as int,
                        earlier[i].0.2 as int,
                    );
                assert(entries[i] == earlier[i]);
            }
        }
    }
}

/// Reading the compound of block entities gives each block entity back
/// under the position it was held at.
pub proof fn lemma_placed_entities_read(entries: Seq<PlacedEntity>)
    requires
        distinct_keys(entries),
    ensures
        placed_entities(placed_nbt(entries)) == entries_to_map(entries),
{
    lemma_placed_nbt(entries);
    let placed = placed_nbt(entries);
    let read = placed_entities(placed);
    let held = entries_to_map(entries);
    assert forall|p: (i32, i32, i32)| #[trigger]
        held.dom().contains(p) implies read.dom().contains(p) && read[p] == held[p] by {
        let key = coordinate_text(p.0 as int, p.1 as int, p.2 as int);
        let i = choose|i: int| 0 <= i < entries.len() && (#[trigger] entries[i]).0 == p;
        lemma_entry_bound(entries, i);
        lemma_block_entity_nbt_round_trip(entries[i].1);
        assert(placed[key] == block_entity_nbt(entries[i].1));
    }
    assert forall|p: (i32, i32, i32)| #[trigger]
        read.dom().contains(p) implies held.dom().contains(p) by {
        let key = coordinate_text(p.0 as int, p.1 as int, p.2 as int);
        if placed.contains_key(key) {
            let i = choose|i: int|
                0 <= i < entries.len() && key == coordinate_text(
                    (#[trigger] entries[i]).0.0 as int,
                    entries[i].0.1 as int,
                    entries[i].0.2 as int,
                );
            lemma_coordinate_injective(
                p.0 as int,
                p.1 as int,
                p.2 as int,
                entries[i].0.0 as int,
                entries[i].0.1 as int,
                entries[i].0.2 as int,
            );
            assert(entries[i].0 == p);
            assert(has_key(entries, p));
        }
    }
    assert(read.dom() =~= held.dom());
    assert(read =~= held);
}

/// Inserting the entries of a palette that starts with the empty block
/// and repeats no entry into a fresh palette gives that palette.
pub proof fn lemma_palette_rebuilt(palette: Seq<BlockStateView>, upto: int)
    requires
        palette.len() >= 1,
        palette[0] == air_view(),
        deduplicated(palette),
        0 <= upto <= palette.len(),
    ensures
        inserted_all(seq![air_view()], palette.take(upto)) == if upto == 0 {
            seq![air_view()]
        } else {
            palette.take(upto)
        },
    decreases upto,
{
    if upto > 0 {
        let incoming = palette.take(upto);
        lemma_palette_rebuilt(palette, upto - 1);
        assert(incoming.drop_last() =~= palette.take(upto - 1));
        assert(incoming.last() == palette[upto - 1]);
        let before = inserted_all(seq![air_view()], palette.take(upto - 1));
        if upto == 1 {
            assert(before == seq![air_view()]);
            lemma_index_in_is(before, palette[0], 0);
            assert(inserted(before, palette[0]) =~= incoming);
        } else {
            assert(before == palette.take(upto - 1));
            assert forall|j: int| 0 <= j < before.len() implies before[j] != palette[upto - 1] by {
                assert(before[j] == palette[j]);
            }
            lemma_index_in_is(before, palette[upto - 1], upto - 1);
            assert(inserted(before, palette[upto - 1]) =~= incoming);
        }
    } else {
        assert(palette.take(0) =~= Seq::<BlockStateView>::empty());
    }
}

/// The structured value of a well-formed region holds all parts of a
/// region, and gives every voxel its own palette index: `Region::from_nbt`
/// reads it with success.
pub proof fn lemma_region_nbt_is_read(region: Region)
    requires
        region.wf(),
        region.palette.len() <= i32::MAX,
    ensures
        region_nbt(region) is Compound,
        region_parts(region_nbt(region)->Compound_0) is Ok,
        indices_fit(region_parts(region_nbt(region)->Compound_0)->Ok_0),
        ({
            let parts = region_parts(region_nbt(region)->Compound_0)->Ok_0;
            &&& parts.name == region.name@
            &&& parts.position == region.position
            &&& parts.size == region.size
            &&& parts.palette == views(region.palette@)
            &&& forall|i: int|
                0 <= i < region.blocks.len() ==> #[trigger] voxel_value(
                    parts.blocks,
                    region.spec_bounding_box(),
                    i,
                ) == region.blocks[i]
        }),
{
    lemma_region_names();
    let m = region_nbt(region)->Compound_0;
    let b = region.spec_bounding_box();
    let voxels = voxels_nbt(region, region.blocks.len() as nat);
    let palette = views(region.palette@);
    assert(string_at(m, "Name"@) == Some(region.name@));
    assert(m["Position"@] == triple_array(region.position));
    assert(m["Size"@] == triple_array(region.size));
    assert(int_array_at(m, "Position"@) == Some(seq![region.position.0, region.position.1, region.position.2]));
    assert(int_array_at(m, "Size"@) == Some(seq![region.size.0, region.size.1, region.size.2]));
    assert(three_ints(m, "Position"@) == Some(region.position));
    assert(three_ints(m, "Size"@) == Some(region.size));
    assert(box_of(region.position, region.size) == b);
    assert(box_volume(region.position, region.size) == b.spec_volume());
    assert(box_fits(region.position, region.size));
    assert(list_at(m, "Palette"@) == Some(palette_nbt(palette)));
    assert forall|i: int| 0 <= i < palette_nbt(palette).len() implies (#[trigger] palette_nbt(
        palette,
    )[i]) is Compound && crate::block_state::block_state_of_nbt(
        palette_nbt(palette)[i]->Compound_0,
    ) == Ok::<crate::block_state::BlockStateView, crate::error::NbtError>(palette[i]) by {
        lemma_block_state_nbt_round_trip(palette[i]);
    }
    assert(palette_of_nbt(palette_nbt(palette)).is_some());
    assert(palette_of_nbt(palette_nbt(palette)).unwrap() =~= palette);
    assert(compound_at(m, "Blocks"@) == Some(voxels));
    lemma_voxels_nbt(region, region.blocks.len() as nat);
    assert forall|key: Seq<char>|
        voxels.contains_key(key) && #[trigger] voxels[key] is Int implies is_point_text_in(
        key,
        b,
    ) by {
        let i = choose|i: int| 0 <= i < region.blocks.len() && key == #[trigger] voxel_key(b, i);
        b.lemma_index_of_coords(i);
        let p = b.spec_coords(i);
        assert(b.has_point(p.0, p.1, p.2));
        assert(key == coordinate_text(p.0 as i32 as int, p.1 as i32 as int, p.2 as i32 as int));
    }
    assert(names_points_of(voxels, b));
    assert(list_at(m, "Entities"@).is_some());
    assert(compound_at(m, "BlockEntities"@) == Some(placed_nbt(region.block_entities.entries())));
    lemma_placed_nbt_names(region.block_entities.entries());
    let parts = region_parts(m)->Ok_0;
    assert(region_parts(m) is Ok);
    assert(parts.blocks == voxels);
    assert forall|i: int| 0 <= i < region.blocks.len() implies #[trigger] voxel_value(
        parts.blocks,
        b,
        i,
    ) == region.blocks[i] by {
        assert(voxels.contains_key(voxel_key(b, i)));
        assert(region.blocks[i] < region.palette.len());
    }
    assert forall|i: int| 0 <= i < b.spec_volume() implies 0 <= #[trigger] voxel_value(
        parts.blocks,
        b,
        i,
    ) < parts.palette.len() by {
        assert(region.blocks[i] < region.palette.len());
    }
}

/// Reading back the structured value of a region gives a region of the
/// same name over the same box, anchored at the minimum corner with
/// positive sizes, that holds the same block at every point, the same
/// palette, the same entities and, where no position is held twice, the
/// same block entities.
pub proof fn lemma_region_nbt_round_trip(region: Region, read: Region)
    requires
        region.wf(),
        region.palette.len() <= i32::MAX,
        is_region_of_nbt(region_nbt(region)->Compound_0, read),
    ensures
        read.wf(),
        read.name@ == region.name@,
        read.spec_bounding_box() == region.spec_bounding_box(),
        read.position == region.spec_bounding_box().min,
        read.size.0 == region.spec_bounding_box().width(),
        read.size.1 == region.spec_bounding_box().height(),
        read.size.2 == region.spec_bounding_box().length(),
        forall|x: int, y: int, z: int| #[trigger]
            read.block_at(x, y, z) == region.block_at(x, y, z),
        views(read.palette@) == views(region.palette@),
        entity_views(read.entities@) == entity_views(region.entities@),
        distinct_keys(region.block_entities.entries()) ==> read.block_entities@
            == region.block_entities@,
{
    lemma_region_nbt_is_read(region);
    lemma_region_names();
    let m = region_nbt(region)->Compound_0;
    let parts = region_parts(m)->Ok_0;
    let b = region.spec_bounding_box();
    assert(read.spec_bounding_box() == b);
    let palette = views(region.palette@);
    lemma_palette_rebuilt(palette, palette.len() as int);
    assert(palette.take(palette.len() as int) =~= palette);
    let tags = Seq::new(region.entities.len() as nat, |i: int| entity_nbt(region.entities[i]@));
    assert(parts.entities == tags);
    assert forall|i: int| 0 <= i < tags.len() implies entity_of_tag(#[trigger] tags[i]) == Some(
        entity_views(region.entities@)[i],
    ) by {
        lemma_entity_nbt_round_trip(region.entities[i]@);
    }
    lemma_all_entities_read(tags, entity_views(region.entities@));
    assert(parts.placed == placed_nbt(region.block_entities.entries()));
    if distinct_keys(region.block_entities.entries()) {
        lemma_placed_entities_read(region.block_entities.entries());
    }
    assert forall|x: int, y: int, z: int| #[trigger]
        read.block_at(x, y, z) == region.block_at(x, y, z) by {
        if b.has_point(x, y, z) {
            b.lemma_coords_of_index(x, y, z);
            let i = b.spec_index(x, y, z);
            assert(voxel_value(parts.blocks, b, i) == region.blocks[i]);
            assert(read.palette[read.blocks[i] as int]@ == parts.palette[region.blocks[i] as int]);
        }
    }
}

} // verus!
