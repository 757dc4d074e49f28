//! Reading a region from its structured value.

use crate::block_entity::{block_entity_of_tag, BlockEntity, BlockEntityMap, BlockEntityView};
use crate::block_state::BlockStateView;
use crate::bounding_box::BoundingBox;
use crate::entity::{entity_of_tag, entity_views, read_entities};
use crate::error::{DecodeError, FormatError, NbtError};
use crate::palette::{palette_of_nbt, read_palette, views};
use crate::metadata::{metadata_of_nbt, Metadata};
use crate::region::{box_fits, checked_box_volume, filled, Region};
use crate::region_map::RegionMap;
use crate::universal_schematic::UniversalSchematic;
use crate::text::{coordinate_text, lemma_coordinate_injective, parse_coordinate_key};
use crate::utils::nbt::{
    compound_at,
    int_array_at,
    is_last_with,
    lemma_bound,
    lemma_bound_has_entry,
    list_at,
    string_at,
    NbtMap,
    NbtValue,
    NbtView,
};
use vstd::prelude::*;

verus! {

/// The three ints of the array under `key`, when it is there and holds
/// three.
pub open spec fn three_ints(m: Map<Seq<char>, NbtView>, key: Seq<char>) -> Option<(i32, i32, i32)> {
    match int_array_at(m, key) {
        Some(a) => if a.len() == 3 {
            Some((a[0], a[1], a[2]))
        } else {
            None
        },
        None => None,
    }
}

/// The three ints of the array under `key`.
pub fn read_three(m: &NbtMap, key: &str) -> (r: Option<(i32, i32, i32)>)
    ensures
        r == three_ints(m@, key@),
{
    match m.get_int_array(key) {
        Some(numbers) => if numbers.len() == 3 {
            Some((numbers[0], numbers[1], numbers[2]))
        } else {
            None
        },
        None => None,
    }
}

/// `key` is the text `x,y,z` of a point.
pub open spec fn is_point_text(key: Seq<char>) -> bool {
    exists|x: i32, y: i32, z: i32| key == #[trigger] coordinate_text(x as int, y as int, z as int)
}

/// `key` is the text `x,y,z` of a point of the box `b`.
pub open spec fn is_point_text_in(key: Seq<char>, b: BoundingBox) -> bool {
    exists|x: i32, y: i32, z: i32|
        b.has_point(x as int, y as int, z as int) && key == #[trigger] coordinate_text(
            x as int,
            y as int,
            z as int,
        )
}

/// The box that `position` and `size` describe.
pub open spec fn box_of(position: (i32, i32, i32), size: (i32, i32, i32)) -> BoundingBox {
    let b = BoundingBox::spec_from_position_and_size(position, size);
    BoundingBox { min: (b.0 as i32, b.1 as i32, b.2 as i32), max: (b.3 as i32, b.4 as i32, b.5 as i32) }
}

/// The text of the point that stands at `index` in the box `b`.
pub open spec fn voxel_key(b: BoundingBox, index: int) -> Seq<char> {
    let p = b.spec_coords(index);
    coordinate_text(p.0, p.1, p.2)
}

/// The palette index that the compound `blocks` gives to the voxel at
/// `index` of the box `b`: the int bound to the text of its point, or 0.
pub open spec fn voxel_value(blocks: Map<Seq<char>, NbtView>, b: BoundingBox, index: int) -> int {
    let key = voxel_key(b, index);
    if blocks.contains_key(key) && blocks[key] is Int {
        blocks[key]->Int_0 as int
    } else {
        0
    }
}

/// Every name of `blocks` that is bound to an int is the text of a point
/// of the box `b`.
pub open spec fn names_points_of(blocks: Map<Seq<char>, NbtView>, b: BoundingBox) -> bool {
    forall|key: Seq<char>|
        blocks.contains_key(key) && #[trigger] blocks[key] is Int ==> is_point_text_in(key, b)
}

/// Every name of `placed` that is bound to a compound is the text of a
/// point.
pub open spec fn names_points(placed: Map<Seq<char>, NbtView>) -> bool {
    forall|key: Seq<char>|
        placed.contains_key(key) && #[trigger] placed[key] is Compound ==> is_point_text(key)
}

/// The block entities that a compound gives by position: under every
/// point whose text is bound to a tag that describes a block entity, that
/// block entity.
pub open spec fn placed_entities(placed: Map<Seq<char>, NbtView>) -> Map<
    (i32, i32, i32),
    BlockEntityView,
> {
    Map::new(
        |p: (i32, i32, i32)|
            placed.contains_key(coordinate_text(p.0 as int, p.1 as int, p.2 as int))
                && block_entity_of_tag(
                placed[coordinate_text(p.0 as int, p.1 as int, p.2 as int)],
            ).is_some(),
        |p: (i32, i32, i32)|
            block_entity_of_tag(
                placed[coordinate_text(p.0 as int, p.1 as int, p.2 as int)],
            ).unwrap(),
    )
}

/// What a structured value says of a region.
pub struct RegionParts {
    pub name: Seq<char>,
    pub position: (i32, i32, i32),
    pub size: (i32, i32, i32),
    pub palette: Seq<BlockStateView>,
    pub blocks: Map<Seq<char>, NbtView>,
    pub entities: Seq<NbtView>,
    pub placed: Map<Seq<char>, NbtView>,
}

/// The parts of a region that a compound holds, or the first of them that
/// is missing or wrong: the name, position and size (a size whose box no
/// region can cover is wrong), the palette (all of its tags must describe
/// block states), the blocks (all names that are bound to ints must be
/// points of the box), the entities, and the block entities (all names
/// that are bound to compounds must be points).
pub open spec fn region_parts(m: Map<Seq<char>, NbtView>) -> Result<RegionParts, NbtError> {
    if string_at(m, "Name"@).is_none() {
        Err(NbtError::RegionName)
    } else if three_ints(m, "Position"@).is_none() {
        Err(NbtError::Position)
    } else if three_ints(m, "Size"@).is_none() || !box_fits(
        three_ints(m, "Position"@).unwrap(),
        three_ints(m, "Size"@).unwrap(),
    ) {
        Err(NbtError::Size)
    } else if list_at(m, "Palette"@).is_none() || palette_of_nbt(
        list_at(m, "Palette"@).unwrap(),
    ).is_none() {
        Err(NbtError::Palette)
    } else if compound_at(m, "Blocks"@).is_none() || !names_points_of(
        compound_at(m, "Blocks"@).unwrap(),
        box_of(three_ints(m, "Position"@).unwrap(), three_ints(m, "Size"@).unwrap()),
    ) {
        Err(NbtError::Blocks)
    } else if list_at(m, "Entities"@).is_none() {
        Err(NbtError::Entities)
    } else if compound_at(m, "BlockEntities"@).is_none() || !names_points(
        compound_at(m, "BlockEntities"@).unwrap(),
    ) {
        Err(NbtError::BlockEntities)
    } else {
        Ok(
            RegionParts {
                name: string_at(m, "Name"@).unwrap(),
                position: three_ints(m, "Position"@).unwrap(),
                size: three_ints(m, "Size"@).unwrap(),
                palette: palette_of_nbt(list_at(m, "Palette"@).unwrap()).unwrap(),
                blocks: compound_at(m, "Blocks"@).unwrap(),
                entities: list_at(m, "Entities"@).unwrap(),
                placed: compound_at(m, "BlockEntities"@).unwrap(),
            },
        )
    }
}

/// Every voxel of the region that `parts` describe is given an index
/// that points into the palette.
pub open spec fn indices_fit(parts: RegionParts) -> bool {
    let b = box_of(parts.position, parts.size);
    forall|i: int|
        0 <= i < b.spec_volume() ==> 0 <= #[trigger] voxel_value(parts.blocks, b, i)
            < parts.palette.len()
}

/// `region` is the region that the compound `m` describes.
pub open spec fn is_region_of_nbt(m: Map<Seq<char>, NbtView>, region: Region) -> bool {
    &&& region_parts(m) is Ok
    &&& indices_fit(region_parts(m)->Ok_0)
    &&& region.name@ == region_parts(m)->Ok_0.name
    &&& region.holds_indexed(
        region_parts(m)->Ok_0.position,
        region_parts(m)->Ok_0.size,
        region_parts(m)->Ok_0.palette,
        Seq::new(
            box_of(region_parts(m)->Ok_0.position, region_parts(m)->Ok_0.size).spec_volume() as nat,
            |i: int|
                voxel_value(
                    region_parts(m)->Ok_0.blocks,
                    box_of(region_parts(m)->Ok_0.position, region_parts(m)->Ok_0.size),
                    i,
                ) as usize,
        ),
    )
    &&& entity_views(region.entities@) == region_parts(m)->Ok_0.entities.filter_map(
        |tag: NbtView| entity_of_tag(tag),
    )
    &&& region.block_entities@ == placed_entities(region_parts(m)->Ok_0.placed)
}

/// The compound `m` does not describe a region, for the reason `e`: a
/// part is missing or wrong, or the parts are there and a voxel is given
/// an index that does not point into the palette.
pub open spec fn region_nbt_fails_with(m: Map<Seq<char>, NbtView>, e: FormatError) -> bool {
    match e {
        FormatError::Nbt(tag) => region_parts(m) == Err::<RegionParts, NbtError>(tag),
        FormatError::Decode(DecodeError::PaletteIndex) => region_parts(m) is Ok && !indices_fit(
            region_parts(m)->Ok_0,
        ),
        FormatError::Decode(_) => false,
    }
}

/// The entry `j` is the one that counts for the name `key`, and binds it
/// to an int.
pub open spec fn int_entry(entries: Seq<(String, NbtValue)>, key: Seq<char>, j: int) -> bool {
    is_last_with(entries, key, j) && entries[j].1@ is Int
}

/// The palette indices that `blocks` gives to the voxels of the box
/// `bounding_box`, in raster order, and whether one of them is negative;
/// nothing when a name that is bound to an int is not a point of the box.
pub fn read_voxels(blocks: &NbtMap, bounding_box: &BoundingBox, volume: usize) -> (r: Option<
    (Vec<usize>, bool),
>)
    requires
        bounding_box.valid(),
        volume == bounding_box.spec_volume(),
    ensures
        match r {
            None => !names_points_of(blocks@, *bounding_box),
            Some((indices, negative)) => {
                &&& names_points_of(blocks@, *bounding_box)
                &&& indices.len() == volume
                &&& negative == exists|i: int|
                    0 <= i < volume && #[trigger] voxel_value(blocks@, *bounding_box, i) < 0
                &&& forall|i: int|
                    0 <= i < volume && voxel_value(blocks@, *bounding_box, i) >= 0
                        ==> #[trigger] indices[i] == voxel_value(blocks@, *bounding_box, i)
            },
        },
{
    let mut indices = filled(volume, 0);
    let mut negative = false;
    let ghost entries = blocks.entries@;
    let ghost b = *bounding_box;
    let mut e: usize = 0;
    while e < blocks.entries.len()
        invariant
            e <= blocks.entries.len(),
            entries == blocks.entries@,
            b == *bounding_box,
            b.valid(),
            volume == b.spec_volume(),
            indices.len() == volume,
            forall|j: int|
                0 <= j < e && #[trigger] int_entry(entries, entries[j].0@, j) ==> is_point_text_in(
                    entries[j].0@,
                    b,
                ),
            forall|i: int, j: int|
                0 <= i < volume && 0 <= j < e && #[trigger] int_entry(entries, voxel_key(b, i), j)
                    ==> (entries[j].1@->Int_0 >= 0 ==> indices[i] == entries[j].1@->Int_0) && (
                entries[j].1@->Int_0 < 0 ==> negative),
            forall|i: int|
                0 <= i < volume && (forall|j: int|
                    0 <= j < e ==> !#[trigger] int_entry(entries, voxel_key(b, i), j))
                    ==> #[trigger] indices[i] == 0,
            negative ==> exists|i: int| 0 <= i < volume && #[trigger] voxel_value(blocks@, b, i) < 0,
        decreases blocks.entries.len() - e,
    {
        let ghost before = indices@;
        let ghost key = entries[e as int].0@;
        if blocks.is_current(e) {
            if let NbtValue::Int(value) = &blocks.entries[e].1 {
                let point = match parse_coordinate_key(blocks.entries[e].0.as_str()) {
                    Some(p) => p,
                    None => {
                        proof {
                            lemma_bound(entries, key, e as int);
                            assert(blocks@.contains_key(key) && blocks@[key] is Int);
                            assert(!is_point_text_in(key, b));
                        }
                        return None;
                    },
                };
                if !bounding_box.contains(point) {
                    proof {
                        lemma_bound(entries, key, e as int);
                        assert(blocks@.contains_key(key) && blocks@[key] is Int);
                        assert(!is_point_text_in(key, b)) by {
                            if is_point_text_in(key, b) {
                                let (x, y, z) = choose|x: i32, y: i32, z: i32|
                                    b.has_point(x as int, y as int, z as int) && key
                                        == #[trigger] coordinate_text(x as int, y as int, z as int);
                                lemma_coordinate_injective(
                                    x as int,
                                    y as int,
                                    z as int,
                                    point.0 as int,
                                    point.1 as int,
                                    point.2 as int,
                                );
                            }
                        }
                    }
                    return None;
                }
                let target = bounding_box.coords_to_index(point.0, point.1, point.2);
                proof {
                    b.lemma_coords_of_index(point.0 as int, point.1 as int, point.2 as int);
                    assert(voxel_key(b, target as int) == key);
                    lemma_bound(entries, key, e as int);
                    assert(voxel_value(blocks@, b, target as int) == *value);
                    assert(is_point_text_in(key, b));
                }
                if *value < 0 {
                    negative = true;
                } else {
                    indices.set(target, *value as usize);
                }
                proof {
                    assert forall|i: int, j: int|
                        0 <= i < volume && 0 <= j < e + 1 && #[trigger] int_entry(
                            entries,
                            voxel_key(b, i),
                            j,
                        ) implies (entries[j].1@->Int_0 >= 0 ==> indices[i] == entries[j].1@->Int_0)
                        && (entries[j].1@->Int_0 < 0 ==> negative) by {
                        if i != target {
                            if voxel_key(b, i) == key {
                                let p = b.spec_coords(i);
                                b.lemma_index_of_coords(i);
                                lemma_coordinate_injective(
                                    p.0,
                                    p.1,
                                    p.2,
                                    point.0 as int,
                                    point.1 as int,
                                    point.2 as int,
                                );
                            }
                            assert(j != e);
                            assert(indices[i] == before[i]);
                        } else {
                            assert(j == e);
                        }
                    }
                    assert forall|i: int|
                        0 <= i < volume && (forall|j: int|
                            0 <= j < e + 1 ==> !#[trigger] int_entry(
                                entries,
                                voxel_key(b, i),
                                j,
                            )) implies #[trigger] indices[i] == 0 by {
                        if i == target {
                            assert(int_entry(entries, voxel_key(b, i), e as int));
                        } else {
                            assert(indices[i] == before[i]);
                            assert forall|j: int| 0 <= j < e implies !#[trigger] int_entry(
                                entries,
                                voxel_key(b, i),
                                j,
                            ) by {}
                        }
                    }
                }
            }
        }
        proof {
            assert forall|i: int, j: int|
                0 <= i < volume && 0 <= j < e + 1 && #[trigger] int_entry(
                    entries,
                    voxel_key(b, i),
                    j,
                ) implies (entries[j].1@->Int_0 >= 0 ==> indices[i] == entries[j].1@->Int_0) && (
            entries[j].1@->Int_0 < 0 ==> negative) by {}
            assert forall|i: int|
                0 <= i < volume && (forall|j: int|
                    0 <= j < e + 1 ==> !#[trigger] int_entry(entries, voxel_key(b, i), j))
                    implies #[trigger] indices[i] == 0 by {
                assert forall|j: int| 0 <= j < e implies !#[trigger] int_entry(
                    entries,
                    voxel_key(b, i),
                    j,
                ) by {}
            }
        }
        e += 1;
    }
    proof {
        assert(names_points_of(blocks@, b)) by {
            assert forall|key: Seq<char>|
                blocks@.contains_key(key) && #[trigger] blocks@[key] is Int implies is_point_text_in(
                key,
                b,
            ) by {
                lemma_bound_has_entry(entries, key);
                let j = choose|j: int| is_last_with(entries, key, j);
                lemma_bound(entries, key, j);
                assert(int_entry(entries, entries[j].0@, j));
            }
        }
        assert forall|i: int|
            0 <= i < volume && voxel_value(blocks@, b, i) >= 0 implies #[trigger] indices[i]
            == voxel_value(blocks@, b, i) by {
            let key = voxel_key(b, i);
            if blocks@.contains_key(key) && blocks@[key] is Int {
                lemma_bound_has_entry(entries, key);
                let j = choose|j: int| is_last_with(entries, key, j);
                lemma_bound(entries, key, j);
                assert(int_entry(entries, voxel_key(b, i), j));
            } else {
                assert forall|j: int| 0 <= j < entries.len() implies !#[trigger] int_entry(
                    entries,
                    voxel_key(b, i),
                    j,
                ) by {
                    if int_entry(entries, key, j) {
                        lemma_bound(entries, key, j);
                    }
                }
            }
        }
        if !negative {
            assert forall|i: int| 0 <= i < volume implies #[trigger] voxel_value(blocks@, b, i)
                >= 0 by {
                let key = voxel_key(b, i);
                if blocks@.contains_key(key) && blocks@[key] is Int {
                    lemma_bound_has_entry(entries, key);
                    let j = choose|j: int| is_last_with(entries, key, j);
                    lemma_bound(entries, key, j);
                    assert(int_entry(entries, voxel_key(b, i), j));
                }
            }
        }
    }
    Some((indices, negative))
}

/// The entry `j` is the one that counts for the name `key`, and binds it
/// to a compound.
pub open spec fn compound_entry(entries: Seq<(String, NbtValue)>, key: Seq<char>, j: int) -> bool {
    is_last_with(entries, key, j) && entries[j].1@ is Compound
}

/// The block entities that `placed` gives by position; nothing when a
/// name that is bound to a compound is not the text of a point.
pub fn read_placed(placed: &NbtMap) -> (r: Option<BlockEntityMap>)
    ensures
        match r {
            None => !names_points(placed@),
            Some(map) => names_points(placed@) && map@ == placed_entities(placed@),
        },
{
    let mut map = BlockEntityMap::new();
    let ghost entries = placed.entries@;
    let mut e: usize = 0;
    while e < placed.entries.len()
        invariant
            e <= placed.entries.len(),
            entries == placed.entries@,
            forall|j: int|
                0 <= j < e && #[trigger] compound_entry(entries, entries[j].0@, j) ==> is_point_text(
                    entries[j].0@,
                ),
            forall|p: (i32, i32, i32)|
                #![trigger map@.contains_key(p)]
                map@.contains_key(p) <==> exists|j: int|
                    0 <= j < e && #[trigger] compound_entry(
                        entries,
                        coordinate_text(p.0 as int, p.1 as int, p.2 as int),
                        j,
                    ) && block_entity_of_tag(entries[j].1@).is_some(),
            forall|p: (i32, i32, i32)|
                #![trigger map@.contains_key(p)]
                map@.contains_key(p) ==> placed@.contains_key(
                    coordinate_text(p.0 as int, p.1 as int, p.2 as int),
                ) && block_entity_of_tag(
                    placed@[coordinate_text(p.0 as int, p.1 as int, p.2 as int)],
                ) == Some(map@[p]),
        decreases placed.entries.len() - e,
    {
        let ghost before = map@;
        let ghost key = entries[e as int].0@;
        if placed.is_current(e) {
            if let NbtValue::Compound(compound) = &placed.entries[e].1 {
                let point = match parse_coordinate_key(placed.entries[e].0.as_str()) {
                    Some(p) => p,
                    None => {
                        proof {
                            lemma_bound(entries, key, e as int);
                            assert(placed@.contains_key(key) && placed@[key] is Compound);
                            assert(!is_point_text(key));
                        }
                        return None;
                    },
                };
                proof {
                    lemma_bound(entries, key, e as int);
                    assert(is_point_text(key));
                }
                if let Ok(block_entity) = BlockEntity::from_nbt(compound) {
                    map.insert(point, block_entity);
                }
                proof {
                    assert forall|p: (i32, i32, i32)|
                        #![trigger map@.contains_key(p)]
                        map@.contains_key(p) <==> exists|j: int|
                            0 <= j < e + 1 && #[trigger] compound_entry(
                                entries,
                                coordinate_text(p.0 as int, p.1 as int, p.2 as int),
                                j,
                            ) && block_entity_of_tag(entries[j].1@).is_some() by {
                        let text = coordinate_text(p.0 as int, p.1 as int, p.2 as int);
                        if map@.contains_key(p) {
                            if before.contains_key(p) {
                                let j = choose|j: int|
                                    0 <= j < e && #[trigger] compound_entry(entries, text, j)
                                        && block_entity_of_tag(entries[j].1@).is_some();
                                assert(0 <= j < e + 1 && compound_entry(entries, text, j));
                            } else {
                                assert(p == point);
                                assert(compound_entry(entries, text, e as int));
                            }
                        }
                        if exists|j: int|
                            0 <= j < e + 1 && #[trigger] compound_entry(entries, text, j)
                                && block_entity_of_tag(entries[j].1@).is_some() {
                            let j = choose|j: int|
                                0 <= j < e + 1 && #[trigger] compound_entry(entries, text, j)
                                    && block_entity_of_tag(entries[j].1@).is_some();
                            if j < e {
                                assert(before.contains_key(p));
                            } else {
                                lemma_coordinate_injective(
                                    p.0 as int,
                                    p.1 as int,
                                    p.2 as int,
                                    point.0 as int,
                                    point.1 as int,
                                    point.2 as int,
                                );
                            }
                        }
                    }
                    assert forall|p: (i32, i32, i32)|
                        #![trigger map@.contains_key(p)]
                        map@.contains_key(p) implies placed@.contains_key(
                        coordinate_text(p.0 as int, p.1 as int, p.2 as int),
                    ) && block_entity_of_tag(
                        placed@[coordinate_text(p.0 as int, p.1 as int, p.2 as int)],
                    ) == Some(map@[p]) by {
                        if p == point {
                        } else {
                            assert(before.contains_key(p));
                        }
                    }
                }
            }
        }
        proof {
            assert forall|p: (i32, i32, i32)|
                #![trigger map@.contains_key(p)]
                map@.contains_key(p) <==> exists|j: int|
                    0 <= j < e + 1 && #[trigger] compound_entry(
                        entries,
                        coordinate_text(p.0 as int, p.1 as int, p.2 as int),
                        j,
                    ) && block_entity_of_tag(entries[j].1@).is_some() by {
                let text = coordinate_text(p.0 as int, p.1 as int, p.2 as int);
                if exists|j: int|
                    0 <= j < e && #[trigger] compound_entry(entries, text, j)
                        && block_entity_of_tag(entries[j].1@).is_some() {
                    let j = choose|j: int|
                        0 <= j < e && #[trigger] compound_entry(entries, text, j)
                            && block_entity_of_tag(entries[j].1@).is_some();
                    assert(0 <= j < e + 1 && compound_entry(entries, text, j));
                }
            }
        }
        e += 1;
    }
    proof {
        assert(names_points(placed@)) by {
            assert forall|key: Seq<char>|
                placed@.contains_key(key) && #[trigger] placed@[key] is Compound implies is_point_text(
                key,
            ) by {
                lemma_bound_has_entry(entries, key);
                let j = choose|j: int| is_last_with(entries, key, j);
                lemma_bound(entries, key, j);
                assert(compound_entry(entries, entries[j].0@, j));
            }
        }
        assert(map@ =~= placed_entities(placed@)) by {
            assert forall|p: (i32, i32, i32)| placed_entities(placed@).contains_key(
                p,
            ) implies map@.contains_key(p) by {
                let text = coordinate_text(p.0 as int, p.1 as int, p.2 as int);
                lemma_bound_has_entry(entries, text);
                let j = choose|j: int| is_last_with(entries, text, j);
                lemma_bound(entries, text, j);
                assert(compound_entry(entries, text, j) && block_entity_of_tag(
                    entries[j].1@,
                ).is_some());
            }
        }
    }
    Some(map)
}

impl Region {
    /// The region that `nbt` describes. The voxels that `nbt` does not
    /// name hold the first entry of its palette.
    pub fn from_nbt(nbt: &NbtMap) -> (r: Result<Region, FormatError>)
        ensures
            match r {
                Ok(region) => is_region_of_nbt(nbt@, region),
                Err(e) => region_nbt_fails_with(nbt@, e),
            },
    {
        let name = match nbt.get_string("Name") {
            Some(name) => name.clone(),
            None => {
                return Err(FormatError::Nbt(NbtError::RegionName));
            },
        };
        let position = match read_three(nbt, "Position") {
            Some(p) => p,
            None => {
                return Err(FormatError::Nbt(NbtError::Position));
            },
        };
        let size = match read_three(nbt, "Size") {
            Some(s) => s,
            None => {
                return Err(FormatError::Nbt(NbtError::Size));
            },
        };
        let volume = match checked_box_volume(position, size) {
            Some(v) => v,
            None => {
                return Err(FormatError::Nbt(NbtError::Size));
            },
        };
        let palette = match nbt.get_list("Palette") {
            Some(list) => match read_palette(list) {
                Some(palette) => palette,
                None => {
                    return Err(FormatError::Nbt(NbtError::Palette));
                },
            },
            None => {
                return Err(FormatError::Nbt(NbtError::Palette));
            },
        };
        let bounding_box = BoundingBox::from_position_and_size(position, size);
        proof {
            assert(bounding_box == box_of(position, size));
        }
        let (indices, negative) = match nbt.get_compound("Blocks") {
            Some(blocks) => match read_voxels(blocks, &bounding_box, volume) {
                Some(found) => found,
                None => {
                    return Err(FormatError::Nbt(NbtError::Blocks));
                },
            },
            None => {
                return Err(FormatError::Nbt(NbtError::Blocks));
            },
        };
        let entities = match nbt.get_list("Entities") {
            Some(list) => read_entities(list),
            None => {
                return Err(FormatError::Nbt(NbtError::Entities));
            },
        };
        let block_entities = match nbt.get_compound("BlockEntities") {
            Some(placed) => match read_placed(placed) {
                Some(map) => map,
                None => {
                    return Err(FormatError::Nbt(NbtError::BlockEntities));
                },
            },
            None => {
                return Err(FormatError::Nbt(NbtError::BlockEntities));
            },
        };
        let ghost parts = region_parts(nbt@)->Ok_0;
        proof {
            assert(region_parts(nbt@) is Ok);
            assert(parts.position == position && parts.size == size);
            assert(parts.palette == views(palette@));
            assert(box_of(parts.position, parts.size) == bounding_box);
        }
        if negative {
            proof {
                let i = choose|i: int|
                    0 <= i < volume && #[trigger] voxel_value(parts.blocks, bounding_box, i) < 0;
                assert(!(0 <= voxel_value(parts.blocks, bounding_box, i) < parts.palette.len()));
                assert(!indices_fit(parts));
            }
            return Err(FormatError::Decode(DecodeError::PaletteIndex));
        }
        let ghost expected = Seq::new(
            bounding_box.spec_volume() as nat,
            |i: int| voxel_value(parts.blocks, bounding_box, i) as usize,
        );
        proof {
            assert(indices@ =~= expected);
        }
        let mut region = match Region::from_indexed(name, position, size, &palette, &indices) {
            Ok(region) => region,
            Err(e) => {
                proof {
                    if e == DecodeError::PaletteIndex {
                        let i = choose|i: int|
                            0 <= i < indices.len() && #[trigger] indices[i] >= palette.len();
                        assert(voxel_value(parts.blocks, bounding_box, i) >= parts.palette.len());
                        assert(!indices_fit(parts));
                    }
                }
                return Err(FormatError::Decode(DecodeError::PaletteIndex));
            },
        };
        let ghost built = region;
        region.entities = entities;
        region.block_entities = block_entities;
        proof {
            assert(region.spec_bounding_box() == built.spec_bounding_box());
            assert(indices_fit(parts)) by {
                assert forall|i: int| 0 <= i < bounding_box.spec_volume() implies 0
                    <= #[trigger] voxel_value(parts.blocks, bounding_box, i)
                    < parts.palette.len() by {
                    assert(indices[i] < palette.len());
                }
            }
        }
        Ok(region)
    }
}

/// The regions that a compound of regions describes, each under the name
/// it is bound to: one for every name that is bound to a compound.
pub fn read_named_regions(regions: &NbtMap) -> (r: Result<RegionMap, FormatError>)
    ensures
        match r {
            Ok(map) => {
                &&& map.wf()
                &&& forall|i: int| 0 <= i < map.entries.len() ==> (#[trigger] map.entries[i]).1.wf()
                &&& forall|name: Seq<char>|
                    #![trigger map@.contains_key(name)]
                    map@.contains_key(name) <==> regions@.contains_key(name)
                        && regions@[name] is Compound
                &&& forall|name: Seq<char>|
                    #![trigger map@.contains_key(name)]
                    map@.contains_key(name) ==> is_region_of_nbt(
                        regions@[name]->Compound_0,
                        map@[name],
                    )
            },
            Err(e) => exists|name: Seq<char>|
                regions@.contains_key(name) && regions@[name] is Compound && #[trigger] region_nbt_fails_with(
                    regions@[name]->Compound_0,
                    e,
                ),
        },
{
    let mut map = RegionMap::new();
    let ghost entries = regions.entries@;
    let mut e: usize = 0;
    while e < regions.entries.len()
        invariant
            e <= regions.entries.len(),
            entries == regions.entries@,
            map.wf(),
            forall|i: int| 0 <= i < map.entries.len() ==> (#[trigger] map.entries[i]).1.wf(),
            forall|name: Seq<char>|
                #![trigger map@.contains_key(name)]
                map@.contains_key(name) <==> exists|j: int|
                    0 <= j < e && #[trigger] compound_entry(entries, name, j),
            forall|name: Seq<char>|
                #![trigger map@.contains_key(name)]
                map@.contains_key(name) ==> regions@.contains_key(name) && regions@[name] is Compound
                    && is_region_of_nbt(regions@[name]->Compound_0, map@[name]),
        decreases regions.entries.len() - e,
    {
        let ghost before = map;
        let ghost key = entries[e as int].0@;
        if regions.is_current(e) {
            if let NbtValue::Compound(compound) = &regions.entries[e].1 {
                proof {
                    lemma_bound(entries, key, e as int);
                }
                let region = match Region::from_nbt(compound) {
                    Ok(region) => region,
                    Err(error) => {
                        proof {
                            assert(regions@.contains_key(key) && regions@[key] is Compound
                                && region_nbt_fails_with(regions@[key]->Compound_0, error));
                        }
                        return Err(error);
                    },
                };
                map.insert(regions.entries[e].0.clone(), region);
                proof {
                    assert forall|i: int| 0 <= i < map.entries.len() implies (
                    #[trigger] map.entries[i]).1.wf() by {
                        let named = map.named();
                        assert(named[i].1 == map.entries[i].1);
                        crate::assoc::lemma_entry_bound(named, i);
                        let name = named[i].0;
                        if name != key {
                            assert(before@.contains_key(name));
                            let j = choose|j: int|
                                0 <= j < before.named().len() && (#[trigger] before.named()[j]).0
                                    == name;
                            crate::assoc::lemma_entry_bound(before.named(), j);
                            assert(before.named()[j].1 == before.entries[j].1);
                        }
                    }
                    assert forall|name: Seq<char>|
                        #![trigger map@.contains_key(name)]
                        map@.contains_key(name) <==> exists|j: int|
                            0 <= j < e + 1 && #[trigger] compound_entry(entries, name, j) by {
                        if map@.contains_key(name) {
                            if before@.contains_key(name) {
                                let j = choose|j: int|
                                    0 <= j < e && #[trigger] compound_entry(entries, name, j);
                                assert(0 <= j < e + 1 && compound_entry(entries, name, j));
                            } else {
                                assert(compound_entry(entries, name, e as int));
                            }
                        }
                        if exists|j: int| 0 <= j < e + 1 && #[trigger] compound_entry(entries, name, j) {
                            let j = choose|j: int|
                                0 <= j < e + 1 && #[trigger] compound_entry(entries, name, j);
                            if j < e {
                                assert(before@.contains_key(name));
                            }
                        }
                    }
                }
            }
        }
        proof {
            assert forall|name: Seq<char>|
                #![trigger map@.contains_key(name)]
                map@.contains_key(name) <==> exists|j: int|
                    0 <= j < e + 1 && #[trigger] compound_entry(entries, name, j) by {
                if exists|j: int| 0 <= j < e && #[trigger] compound_entry(entries, name, j) {
                    let j = choose|j: int| 0 <= j < e && #[trigger] compound_entry(entries, name, j);
                    assert(0 <= j < e + 1 && compound_entry(entries, name, j));
                }
            }
        }
        e += 1;
    }
    proof {
        assert forall|name: Seq<char>|
            #![trigger map@.contains_key(name)]
            map@.contains_key(name) <==> regions@.contains_key(name)
                && regions@[name] is Compound by {
            if regions@.contains_key(name) && regions@[name] is Compound {
                lemma_bound_has_entry(entries, name);
                let j = choose|j: int| is_last_with(entries, name, j);
                lemma_bound(entries, name, j);
                assert(compound_entry(entries, name, j));
            }
        }
    }
    Ok(map)
}

/// `schematic` is the schematic that the compound `m` describes: the
/// metadata under `Metadata`, a region for every name that the compound
/// under `Regions` binds to a compound, and the name under
/// `DefaultRegion`.
pub open spec fn is_schematic_of_nbt(m: Map<Seq<char>, NbtView>, schematic: UniversalSchematic) -> bool {
    &&& compound_at(m, "Metadata"@).is_some()
    &&& compound_at(m, "Regions"@).is_some()
    &&& string_at(m, "DefaultRegion"@) == Some(schematic.default_region_name@)
    &&& schematic.metadata@ == metadata_of_nbt(compound_at(m, "Metadata"@).unwrap())
    &&& schematic.wf()
    &&& forall|name: Seq<char>|
        #![trigger schematic.regions@.contains_key(name)]
        schematic.regions@.contains_key(name) <==> compound_at(
            m,
            "Regions"@,
        ).unwrap().contains_key(name) && compound_at(m, "Regions"@).unwrap()[name] is Compound
    &&& forall|name: Seq<char>|
        #![trigger schematic.regions@.contains_key(name)]
        schematic.regions@.contains_key(name) ==> is_region_of_nbt(
            compound_at(m, "Regions"@).unwrap()[name]->Compound_0,
            schematic.regions@[name],
        )
}

impl UniversalSchematic {
    /// The schematic that `nbt` describes.
    pub fn from_nbt(nbt: NbtMap) -> (r: Result<Self, FormatError>)
        ensures
            match r {
                Ok(schematic) => is_schematic_of_nbt(nbt@, schematic),
                Err(e) => if compound_at(nbt@, "Metadata"@).is_none() {
                    e == FormatError::Nbt(NbtError::Metadata)
                } else if compound_at(nbt@, "Regions"@).is_none() {
                    e == FormatError::Nbt(NbtError::Regions)
                } else if exists|name: Seq<char>|
                    compound_at(nbt@, "Regions"@).unwrap().contains_key(name) && compound_at(
                        nbt@,
                        "Regions"@,
                    ).unwrap()[name] is Compound && #[trigger] region_nbt_fails_with(
                        compound_at(nbt@, "Regions"@).unwrap()[name]->Compound_0,
                        e,
                    ) {
                    true
                } else {
                    e == FormatError::Nbt(NbtError::DefaultRegion) && string_at(
                        nbt@,
                        "DefaultRegion"@,
                    ).is_none()
                },
            },
    {
        let metadata = match nbt.get_compound("Metadata") {
            Some(compound) => match Metadata::from_nbt(compound) {
                Ok(metadata) => metadata,
                Err(e) => {
                    return Err(FormatError::Nbt(e));
                },
            },
            None => {
                return Err(FormatError::Nbt(NbtError::Metadata));
            },
        };
        let regions = match nbt.get_compound("Regions") {
            Some(compound) => match read_named_regions(compound) {
                Ok(regions) => regions,
                Err(e) => {
                    proof {
                        let view = compound_at(nbt@, "Regions"@).unwrap();
                        assert(view == compound@);
                        let name = choose|name: Seq<char>|
                            compound@.contains_key(name) && compound@[name] is Compound
                                && #[trigger] region_nbt_fails_with(
                                compound@[name]->Compound_0,
                                e,
                            );
                        assert(view.contains_key(name) && view[name] is Compound
                            && region_nbt_fails_with(view[name]->Compound_0, e));
                    }
                    return Err(e);
                },
            },
            None => {
                return Err(FormatError::Nbt(NbtError::Regions));
            },
        };
        let default_region_name = match nbt.get_string("DefaultRegion") {
            Some(name) => name.clone(),
            None => {
                return Err(FormatError::Nbt(NbtError::DefaultRegion));
            },
        };
        Ok(UniversalSchematic { metadata, regions, default_region_name })
    }
}

} // verus!
