//! The structured value of a schematic in the container format that keeps
//! every region apart, with its blocks packed into 64-bit words.

use crate::block_entity::{
    block_entity_nbt,
    block_entity_of_nbt,
    block_entity_of_tag,
    BlockEntity,
    BlockEntityMap,
    BlockEntityView,
};
use crate::block_state::{BlockState, BlockStateView};
use crate::entity::{entity_nbt, entity_of_tag, entity_views, read_entities, Entity};
use crate::error::{DecodeError, FormatError, NbtError};
use crate::packing::{bits_needed, is_packing, is_unpacking, packed_len, unpack_indices, unpacks_to};
use crate::palette::{palette_nbt, palette_of_nbt, palette_to_nbt, read_palette, views};
use crate::metadata::{text_of, text_view, time_of, unsigned};
use crate::region::{box_fits, box_volume, checked_box_volume, Region};
use crate::region_map::RegionMap;
use crate::universal_schematic::{total_filled, total_voxels, union_of, UniversalSchematic};
use crate::utils::nbt::{
    compound_at,
    entry_at,
    int_at,
    lemma_list_view,
    list_at,
    is_last_with,
    lemma_bound,
    lemma_bound_has_entry,
    list_view,
    long_array_at,
    long_at,
    string_at,
    NbtMap,
    NbtValue,
    NbtView,
};
use vstd::prelude::*;

verus! {

/// The compound that holds the three numbers of `v` under `x`, `y` and
/// `z`.
pub open spec fn triple_nbt(v: (i32, i32, i32)) -> NbtView {
    NbtView::Compound(
        Map::<Seq<char>, NbtView>::empty().insert("x"@, NbtView::Int(v.0)).insert(
            "y"@,
            NbtView::Int(v.1),
        ).insert("z"@, NbtView::Int(v.2)),
    )
}

/// The three ints that the compound under `key` holds under `x`, `y` and
/// `z`, when it is there and holds them.
pub open spec fn triple_at(m: Map<Seq<char>, NbtView>, key: Seq<char>) -> Option<(i32, i32, i32)> {
    match compound_at(m, key) {
        Some(c) => if int_at(c, "x"@).is_some() && int_at(c, "y"@).is_some() && int_at(
            c,
            "z"@,
        ).is_some() {
            Some((int_at(c, "x"@).unwrap(), int_at(c, "y"@).unwrap(), int_at(c, "z"@).unwrap()))
        } else {
            None
        },
        None => None,
    }
}

/// The compound that holds the three numbers of `v` under `x`, `y` and
/// `z`.
pub fn triple_to_nbt(v: (i32, i32, i32)) -> (r: NbtValue)
    ensures
        r@ == triple_nbt(v),
{
    let mut compound = NbtMap::new();
    compound.put("x", NbtValue::Int(v.0));
    compound.put("y", NbtValue::Int(v.1));
    compound.put("z", NbtValue::Int(v.2));
    NbtValue::Compound(compound)
}

/// The three ints that the compound under `key` holds.
pub fn read_triple(m: &NbtMap, key: &str) -> (r: Option<(i32, i32, i32)>)
    ensures
        r == triple_at(m@, key@),
{
    let compound = match m.get_compound(key) {
        Some(c) => c,
        None => {
            return None;
        },
    };
    match (compound.get_int("x"), compound.get_int("y"), compound.get_int("z")) {
        (Some(x), Some(y), Some(z)) => Some((x, y, z)),
        _ => None,
    }
}

/// The structured values of a sequence of entities, in order.
pub fn entities_to_nbt(entities: &Vec<Entity>) -> (r: Vec<NbtValue>)
    ensures
        list_view(r@) == Seq::new(entities.len() as nat, |i: int| entity_nbt(entities[i]@)),
{
    let mut list: Vec<NbtValue> = Vec::new();
    let mut i: usize = 0;
    while i < entities.len()
        invariant
            i <= entities.len(),
            list.len() == i,
            forall|j: int| 0 <= j < i ==> (#[trigger] list[j])@ == entity_nbt(entities[j]@),
        decreases entities.len() - i,
    {
        list.push(entities[i].to_nbt());
        i += 1;
    }
    proof {
        lemma_list_view(list@);
        assert(list_view(list@) =~= Seq::new(
            entities.len() as nat,
            |i: int| entity_nbt(entities[i]@),
        ));
    }
    list
}

/// The structured values of the block entities of a map, in its order.
pub fn block_entities_to_nbt(map: &BlockEntityMap) -> (r: Vec<NbtValue>)
    ensures
        list_view(r@) == Seq::new(
            map.entries().len(),
            |i: int| block_entity_nbt(map.entries()[i].1),
        ),
{
    let n = map.len();
    let mut list: Vec<NbtValue> = Vec::new();
    let mut i: usize = 0;
    while i < n
        invariant
            i <= n,
            n == map.entries().len(),
            list.len() == i,
            forall|j: int| 0 <= j < i ==> (#[trigger] list[j])@ == block_entity_nbt(
                map.entries()[j].1,
            ),
        decreases n - i,
    {
        list.push(map.value_at(i).to_nbt());
        i += 1;
    }
    proof {
        lemma_list_view(list@);
        assert(list_view(list@) =~= Seq::new(
            map.entries().len(),
            |i: int| block_entity_nbt(map.entries()[i].1),
        ));
    }
    list
}

/// The block entities that the tags of `list` describe, each under its
/// own position; a later one replaces an earlier one at the same
/// position, and tags that describe none are left out.
pub open spec fn tile_entities_of(list: Seq<NbtView>) -> Map<(i32, i32, i32), BlockEntityView>
    decreases list.len(),
{
    if list.len() == 0 {
        Map::empty()
    } else {
        let earlier = tile_entities_of(list.drop_last());
        match block_entity_of_tag(list.last()) {
            Some(e) => earlier.insert(e.position, e),
            None => earlier,
        }
    }
}

/// The block entities that the tags of `list` describe.
pub fn read_tile_entities(list: &Vec<NbtValue>) -> (r: BlockEntityMap)
    ensures
        r@ == tile_entities_of(list_view(list@)),
{
    let mut map = BlockEntityMap::new();
    let mut i: usize = 0;
    let ghost tags = list_view(list@);
    proof {
        lemma_list_view(list@);
        assert(tags.take(0) =~= Seq::<NbtView>::empty());
    }
    while i < list.len()
        invariant
            i <= list.len(),
            tags == list_view(list@),
            tags.len() == list.len(),
            forall|j: int| 0 <= j < list.len() ==> (#[trigger] tags[j]) == list[j]@,
            map@ == tile_entities_of(tags.take(i as int)),
        decreases list.len() - i,
    {
        proof {
            assert(tags.take(i as int + 1).drop_last() =~= tags.take(i as int));
            assert(tags.take(i as int + 1).last() == tags[i as int]);
        }
        if let Some(compound) = list[i].as_compound() {
            if let Ok(block_entity) = BlockEntity::from_nbt(compound) {
                let key = block_entity.position;
                map.insert(key, block_entity);
            }
        }
        i += 1;
    }
    proof {
        assert(tags.take(list.len() as int) =~= tags);
    }
    map
}

/// The structured value of a region whose blocks are packed into `words`:
/// position and size as compounds of three ints, the palette, the packed
/// blocks, the entities, the block entities, and two empty lists of
/// pending ticks.
pub open spec fn litematic_region_nbt(region: Region, words: Seq<i64>) -> NbtView {
    NbtView::Compound(
        Map::<Seq<char>, NbtView>::empty().insert("Position"@, triple_nbt(region.position)).insert(
            "Size"@,
            triple_nbt(region.size),
        ).insert(
            "BlockStatePalette"@,
            NbtView::List(palette_nbt(views(region.palette@))),
        ).insert("BlockStates"@, NbtView::LongArray(words)).insert(
            "Entities"@,
            NbtView::List(
                Seq::new(region.entities.len() as nat, |i: int| entity_nbt(region.entities[i]@)),
            ),
        ).insert(
            "TileEntities"@,
            NbtView::List(
                Seq::new(
                    region.block_entities.entries().len(),
                    |i: int| block_entity_nbt(region.block_entities.entries()[i].1),
                ),
            ),
        ).insert("PendingBlockTicks"@, NbtView::List(Seq::empty())).insert(
            "PendingFluidTicks"@,
            NbtView::List(Seq::empty()),
        ),
    )
}

/// `tag` is the structured value of `region`, with the blocks packed as
/// the palette of the region asks.
pub open spec fn is_region_nbt(tag: NbtView, region: Region) -> bool {
    exists|words: Seq<i64>| #[trigger]
        is_packing(words, region.blocks@, bits_needed(region.palette.len() as nat)) && tag
            == litematic_region_nbt(region, words)
}

/// The structured value of `region`.
pub fn region_to_litematic(region: &Region) -> (r: NbtValue)
    ensures
        is_region_nbt(r@, *region),
{
    let mut compound = NbtMap::new();
    compound.put("Position", triple_to_nbt(region.position));
    compound.put("Size", triple_to_nbt(region.size));
    compound.put("BlockStatePalette", NbtValue::List(palette_to_nbt(&region.palette)));
    let words = region.create_packed_block_states();
    let ghost packed = words@;
    compound.put("BlockStates", NbtValue::LongArray(words));
    compound.put("Entities", NbtValue::List(entities_to_nbt(&region.entities)));
    compound.put("TileEntities", NbtValue::List(block_entities_to_nbt(&region.block_entities)));
    let pending: Vec<NbtValue> = Vec::new();
    let pending_fluid: Vec<NbtValue> = Vec::new();
    compound.put("PendingBlockTicks", NbtValue::List(pending));
    compound.put("PendingFluidTicks", NbtValue::List(pending_fluid));
    let r = NbtValue::Compound(compound);
    proof {
        assert(is_packing(packed, region.blocks@, bits_needed(region.palette.len() as nat)));
        assert(r@ == litematic_region_nbt(*region, packed));
    }
    r
}

/// What the blocks of a region need from its structured value.
pub struct RegionHeader {
    pub position: (i32, i32, i32),
    pub size: (i32, i32, i32),
    pub palette: Seq<BlockStateView>,
    pub words: Seq<i64>,
}

/// The position, size, palette and packed blocks that a compound gives
/// for a region, or the first of them that is missing or wrong. A size
/// whose box no region can cover counts as wrong.
pub open spec fn region_header(m: Map<Seq<char>, NbtView>) -> Result<RegionHeader, NbtError> {
    if triple_at(m, "Position"@).is_none() {
        Err(NbtError::Position)
    } else if triple_at(m, "Size"@).is_none() || !box_fits(
        triple_at(m, "Position"@).unwrap(),
        triple_at(m, "Size"@).unwrap(),
    ) {
        Err(NbtError::Size)
    } else if list_at(m, "BlockStatePalette"@).is_none() || palette_of_nbt(
        list_at(m, "BlockStatePalette"@).unwrap(),
    ).is_none() {
        Err(NbtError::BlockStatePalette)
    } else if long_array_at(m, "BlockStates"@).is_none() {
        Err(NbtError::BlockStates)
    } else {
        Ok(
            RegionHeader {
                position: triple_at(m, "Position"@).unwrap(),
                size: triple_at(m, "Size"@).unwrap(),
                palette: palette_of_nbt(list_at(m, "BlockStatePalette"@).unwrap()).unwrap(),
                words: long_array_at(m, "BlockStates"@).unwrap(),
            },
        )
    }
}

/// `region` is what the compound `m` describes: a region called `name`
/// over the box of the position and size that `m` gives, whose voxels hold
/// the blocks that the packed indices name in the palette of `m`, with the
/// entities and block entities that `m` lists.
pub open spec fn is_region_of(m: Map<Seq<char>, NbtView>, name: Seq<char>, region: Region) -> bool {
    &&& region_header(m) is Ok
    &&& region.name@ == name
    &&& exists|indices: Vec<usize>| #[trigger]
        unpacks_to(
            region_header(m)->Ok_0.words,
            region_header(m)->Ok_0.palette.len(),
            box_volume(region_header(m)->Ok_0.position, region_header(m)->Ok_0.size) as nat,
            Ok(indices),
        ) && region.holds_indexed(
            region_header(m)->Ok_0.position,
            region_header(m)->Ok_0.size,
            region_header(m)->Ok_0.palette,
            indices@,
        )
    &&& entity_views(region.entities@) == match list_at(m, "Entities"@) {
        Some(list) => list.filter_map(|tag: NbtView| entity_of_tag(tag)),
        None => Seq::empty(),
    }
    &&& region.block_entities@ == match list_at(m, "TileEntities"@) {
        Some(list) => tile_entities_of(list),
        None => Map::empty(),
    }
}

/// The region called `name` that `nbt` describes.
pub fn region_from_litematic(name: String, nbt: &NbtMap) -> (r: Result<Region, FormatError>)
    ensures
        match r {
            Ok(region) => is_region_of(nbt@, name@, region),
            Err(FormatError::Nbt(e)) => region_header(nbt@) == Err::<RegionHeader, NbtError>(e),
            Err(FormatError::Decode(e)) => region_header(nbt@) is Ok && e != DecodeError::BlockCount
                && unpacks_to(
                region_header(nbt@)->Ok_0.words,
                region_header(nbt@)->Ok_0.palette.len(),
                box_volume(region_header(nbt@)->Ok_0.position, region_header(nbt@)->Ok_0.size) as nat,
                Err(e),
            ),
        },
{
    let position = match read_triple(nbt, "Position") {
        Some(p) => p,
        None => {
            return Err(FormatError::Nbt(NbtError::Position));
        },
    };
    let size = match read_triple(nbt, "Size") {
        Some(s) => s,
        None => {
            return Err(FormatError::Nbt(NbtError::Size));
        },
    };
    let volume = match checked_box_volume(position, size) {
        Some(v) => v,
        None => {
            return Err(FormatError::Nbt(NbtError::Size));
        },
    };
    let palette = match nbt.get_list("BlockStatePalette") {
        Some(list) => match read_palette(list) {
            Some(palette) => palette,
            None => {
                return Err(FormatError::Nbt(NbtError::BlockStatePalette));
            },
        },
        None => {
            return Err(FormatError::Nbt(NbtError::BlockStatePalette));
        },
    };
    let words = match nbt.get_long_array("BlockStates") {
        Some(words) => words,
        None => {
            return Err(FormatError::Nbt(NbtError::BlockStates));
        },
    };
    let indices = match unpack_indices(words.as_slice(), palette.len(), volume) {
        Ok(indices) => indices,
        Err(e) => {
            return Err(FormatError::Decode(e));
        },
    };
    let mut region = match Region::from_indexed(name, position, size, &palette, &indices) {
        Ok(region) => region,
        Err(e) => {
            assert(false);
            return Err(FormatError::Decode(e));
        },
    };
    let ghost built = region;
    if let Some(list) = nbt.get_list("Entities") {
        region.entities = read_entities(list);
    }
    if let Some(list) = nbt.get_list("TileEntities") {
        region.block_entities = read_tile_entities(list);
    }
    proof {
        assert(region.spec_bounding_box() == built.spec_bounding_box());
        assert(region.holds_indexed(position, size, views(palette@), indices@));
        assert(unpacks_to(
            region_header(nbt@)->Ok_0.words,
            region_header(nbt@)->Ok_0.palette.len(),
            box_volume(region_header(nbt@)->Ok_0.position, region_header(nbt@)->Ok_0.size) as nat,
            Ok(indices),
        ));
        assert(entity_views(built.entities@) =~= Seq::empty());
    }
    Ok(region)
}

/// The structured values of the regions of `schematic`, each under the
/// name of its region.
pub fn create_regions(schematic: &UniversalSchematic) -> (r: NbtMap)
    requires
        schematic.regions.wf(),
    ensures
        r@.dom() == schematic.regions@.dom(),
        forall|name: Seq<char>| #[trigger]
            r@.contains_key(name) ==> is_region_nbt(r@[name], schematic.regions@[name]),
{
    let mut regions = NbtMap::new();
    let mut i: usize = 0;
    let ghost named = schematic.regions.named();
    while i < schematic.regions.entries.len()
        invariant
            i <= schematic.regions.entries.len(),
            named == schematic.regions.named(),
            crate::assoc::distinct_keys(named),
            forall|name: Seq<char>|
                regions@.contains_key(name) <==> exists|j: int|
                    0 <= j < i && (#[trigger] named[j]).0 == name,
            forall|j: int| 0 <= j < i ==> is_region_nbt(regions@[(#[trigger] named[j]).0], named[j].1),
        decreases schematic.regions.entries.len() - i,
    {
        let name = schematic.regions.entries[i].0.clone();
        let value = region_to_litematic(&schematic.regions.entries[i].1);
        let ghost before = regions@;
        proof {
            assert(named[i as int].0 == name@);
            assert(named[i as int].1 == schematic.regions.entries[i as int].1);
        }
        regions.insert(name, value);
        proof {
            assert forall|key: Seq<char>|
                regions@.contains_key(key) <==> exists|j: int|
                    0 <= j < i + 1 && (#[trigger] named[j]).0 == key by {
                if regions@.contains_key(key) {
                    if before.contains_key(key) {
                        let j = choose|j: int| 0 <= j < i && (#[trigger] named[j]).0 == key;
                        assert(0 <= j < i + 1 && named[j].0 == key);
                    } else {
                        assert(named[i as int].0 == key);
                    }
                }
            }
            assert forall|j: int| 0 <= j < i + 1 implies is_region_nbt(
                regions@[(#[trigger] named[j]).0],
                named[j].1,
            ) by {
                if j < i {
                    assert(named[j].0 != named[i as int].0);
                }
            }
        }
        i += 1;
    }
    proof {
        assert(regions@.dom() =~= schematic.regions@.dom()) by {
            assert forall|key: Seq<char>| regions@.contains_key(key)
                <==> schematic.regions@.contains_key(key) by {
                if schematic.regions@.contains_key(key) {
                    assert(crate::assoc::has_key(named, key));
                    let j = choose|j: int| 0 <= j < named.len() && (#[trigger] named[j]).0 == key;
                    assert(0 <= j < named.len() && named[j].0 == key);
                }
                if regions@.contains_key(key) {
                    let j = choose|j: int| 0 <= j < named.len() && (#[trigger] named[j]).0 == key;
                    assert(crate::assoc::has_key(named, key));
                }
            }
        }
        assert forall|name: Seq<char>| #[trigger] regions@.contains_key(name) implies is_region_nbt(
            regions@[name],
            schematic.regions@[name],
        ) by {
            let j = choose|j: int| 0 <= j < named.len() && (#[trigger] named[j]).0 == name;
            crate::assoc::lemma_entry_bound(named, j);
        }
    }
    regions
}

/// The compound `m` does not describe a region, for the reason `e`.
pub open spec fn region_fails_with(m: Map<Seq<char>, NbtView>, e: FormatError) -> bool {
    match e {
        FormatError::Nbt(tag) => region_header(m) == Err::<RegionHeader, NbtError>(tag),
        FormatError::Decode(reason) => region_header(m) is Ok && reason != DecodeError::BlockCount
            && unpacks_to(
            region_header(m)->Ok_0.words,
            region_header(m)->Ok_0.palette.len(),
            box_volume(region_header(m)->Ok_0.position, region_header(m)->Ok_0.size) as nat,
            Err(reason),
        ),
    }
}

/// The regions that a compound of regions describes: one for every name
/// that is bound to a compound, in the order of the entries.
pub fn read_regions(regions: &NbtMap) -> (r: Result<Vec<Region>, FormatError>)
    ensures
        match r {
            Ok(list) => {
                &&& forall|name: Seq<char>|
                    (exists|k: int| 0 <= k < list.len() && (#[trigger] list[k]).name@ == name) <==> (
                    regions@.contains_key(name) && regions@[name] is Compound)
                &&& forall|k: int|
                    0 <= k < list.len() ==> regions@.contains_key((#[trigger] list[k]).name@)
                        && regions@[list[k].name@] is Compound && is_region_of(
                        regions@[list[k].name@]->Compound_0,
                        list[k].name@,
                        list[k],
                    )
                &&& forall|a: int, b: int|
                    0 <= a < b < list.len() ==> (#[trigger] list[a]).name@ != (
                    #[trigger] list[b]).name@
            },
            Err(e) => exists|name: Seq<char>|
                regions@.contains_key(name) && regions@[name] is Compound && #[trigger] region_fails_with(
                    regions@[name]->Compound_0,
                    e,
                ),
        },
{
    let mut parsed: Vec<Region> = Vec::new();
    let mut sources: Ghost<Seq<int>> = Ghost(Seq::empty());
    let mut i: usize = 0;
    while i < regions.entries.len()
        invariant
            i <= regions.entries.len(),
            sources@.len() == parsed.len(),
            forall|k: int|
                0 <= k < parsed.len() ==> 0 <= #[trigger] sources@[k] < i && is_last_with(
                    regions.entries@,
                    parsed[k].name@,
                    sources@[k],
                ) && regions.entries[sources@[k]].1@ is Compound && is_region_of(
                    regions.entries[sources@[k]].1@->Compound_0,
                    parsed[k].name@,
                    parsed[k],
                ),
            forall|a: int, b: int| 0 <= a < b < parsed.len() ==> #[trigger] sources@[a] < #[trigger] sources@[b],
            forall|j: int|
                0 <= j < i && is_last_with(regions.entries@, regions.entries[j].0@, j)
                    && regions.entries[j].1@ is Compound ==> exists|k: int|
                    0 <= k < parsed.len() && #[trigger] sources@[k] == j,
        decreases regions.entries.len() - i,
    {
        let ghost before = sources@;
        if regions.is_current(i) {
            if let NbtValue::Compound(region_nbt) = &regions.entries[i].1 {
                let name = regions.entries[i].0.clone();
                match region_from_litematic(name, region_nbt) {
                    Ok(region) => {
                        parsed.push(region);
                        proof {
                            sources@ = sources@.push(i as int);
                        }
                    },
                    Err(e) => {
                        proof {
                            let key = regions.entries[i as int].0@;
                            lemma_bound(regions.entries@, key, i as int);
                            assert(regions@.contains_key(key) && regions@[key] is Compound
                                && region_fails_with(regions@[key]->Compound_0, e));
                        }
                        return Err(e);
                    },
                }
            }
        }
        proof {
            assert forall|j: int|
                0 <= j < i + 1 && is_last_with(regions.entries@, regions.entries[j].0@, j)
                    && regions.entries[j].1@ is Compound implies exists|k: int|
                0 <= k < parsed.len() && #[trigger] sources@[k] == j by {
                if j < i {
                    let k = choose|k: int| 0 <= k < before.len() && #[trigger] before[k] == j;
                    assert(sources@[k] == j);
                } else {
                    assert(sources@[parsed.len() - 1] == j);
                }
            }
        }
        i += 1;
    }
    proof {
        assert forall|name: Seq<char>|
            (exists|k: int| 0 <= k < parsed.len() && (#[trigger] parsed[k]).name@ == name) <==> (
            regions@.contains_key(name) && regions@[name] is Compound) by {
            if exists|k: int| 0 <= k < parsed.len() && (#[trigger] parsed[k]).name@ == name {
                let k = choose|k: int| 0 <= k < parsed.len() && (#[trigger] parsed[k]).name@ == name;
                lemma_bound(regions.entries@, name, sources@[k]);
            }
            if regions@.contains_key(name) && regions@[name] is Compound {
                lemma_bound_has_entry(regions.entries@, name);
                let s = choose|s: int| is_last_with(regions.entries@, name, s);
                lemma_bound(regions.entries@, name, s);
                let k = choose|k: int| 0 <= k < parsed.len() && #[trigger] sources@[k] == s;
                assert(parsed[k].name@ == name);
            }
        }
        assert forall|k: int| 0 <= k < parsed.len() implies regions@.contains_key(
            (#[trigger] parsed[k]).name@,
        ) && regions@[parsed[k].name@] is Compound && is_region_of(
            regions@[parsed[k].name@]->Compound_0,
            parsed[k].name@,
            parsed[k],
        ) by {
            lemma_bound(regions.entries@, parsed[k].name@, sources@[k]);
        }
        assert forall|a: int, b: int| 0 <= a < b < parsed.len() implies (#[trigger] parsed[a]).name@
            != (#[trigger] parsed[b]).name@ by {
            assert(sources@[a] < sources@[b]);
        }
    }
    Ok(parsed)
}

/// The name of the first entry of the compound under `Regions`, or
/// `otherwise` when that compound has no entry.
pub open spec fn first_region_name(root: &NbtMap, otherwise: Seq<char>) -> Seq<char> {
    match entry_at(root.entries@, "Regions"@) {
        Some(NbtValue::Compound(regions)) => if regions.entries.len() > 0 {
            regions.entries[0].0@
        } else {
            otherwise
        },
        _ => otherwise,
    }
}

/// Reads the regions that the compound under `Regions` of `root`
/// describes and adds them to `schematic`. Every name of that compound
/// that is bound to a compound gives a region; a region whose name is in
/// use already is left out. The name of the first entry of the compound
/// becomes the name of the default region. When a region cannot be read,
/// nothing is changed.
pub fn parse_regions(root: &NbtMap, schematic: &mut UniversalSchematic) -> (r: Result<
    (),
    FormatError,
>)
    requires
        old(schematic).wf(),
    ensures
        final(schematic).wf(),
        final(schematic).metadata == old(schematic).metadata,
        r is Err ==> *final(schematic) == *old(schematic),
        match r {
            Ok(_) => compound_at(root@, "Regions"@).is_some(),
            Err(e) => if compound_at(root@, "Regions"@).is_none() {
                e == FormatError::Nbt(NbtError::Regions)
            } else {
                exists|name: Seq<char>|
                    compound_at(root@, "Regions"@).unwrap().contains_key(name) && compound_at(
                        root@,
                        "Regions"@,
                    ).unwrap()[name] is Compound && #[trigger] region_fails_with(
                        compound_at(root@, "Regions"@).unwrap()[name]->Compound_0,
                        e,
                    )
            },
        },
        r is Ok ==> final(schematic).default_region_name@ == first_region_name(
            root,
            old(schematic).default_region_name@,
        ),
        r is Ok ==> {
            let regions = compound_at(root@, "Regions"@).unwrap();
            &&& forall|name: Seq<char>|
                final(schematic).regions@.contains_key(name) <==> old(schematic).regions@.contains_key(name) || (regions.contains_key(name)
                    && regions[name] is Compound)
            &&& forall|name: Seq<char>|
                old(schematic).regions@.contains_key(name) ==> #[trigger] final(schematic).regions@[name]
                    == old(schematic).regions@[name]
            &&& forall|name: Seq<char>|
                regions.contains_key(name) && regions[name] is Compound && !old(schematic).regions@.contains_key(name) ==> is_region_of(
                    regions[name]->Compound_0,
                    name,
                    #[trigger] final(schematic).regions@[name],
                )
        },
{
    let regions = match root.get_compound("Regions") {
        Some(regions) => regions,
        None => {
            return Err(FormatError::Nbt(NbtError::Regions));
        },
    };
    let parsed = match read_regions(regions) {
        Ok(parsed) => parsed,
        Err(e) => {
            proof {
                let view = compound_at(root@, "Regions"@).unwrap();
                assert(view == regions@);
                let name = choose|name: Seq<char>|
                    regions@.contains_key(name) && regions@[name] is Compound
                        && #[trigger] region_fails_with(regions@[name]->Compound_0, e);
                assert(view.contains_key(name) && view[name] is Compound && region_fails_with(
                    view[name]->Compound_0,
                    e,
                ));
            }
            return Err(e);
        },
    };
    if regions.entries.len() > 0 {
        schematic.default_region_name = regions.entries[0].0.clone();
    }
    let ghost start = *schematic;
    let ghost all = parsed@;
    let total = parsed.len();
    let mut rest = parsed;
    let mut k: usize = 0;
    proof {
        assert forall|j: int| 0 <= j < all.len() implies (#[trigger] all[j]).wf() by {
            assert(is_region_of(regions@[all[j].name@]->Compound_0, all[j].name@, all[j]));
        }
    }
    while rest.len() > 0
        invariant
            k + rest.len() == total,
            total == all.len(),
            rest@ == all.subrange(k as int, total as int),
            schematic.wf(),
            schematic.metadata == start.metadata,
            schematic.default_region_name == start.default_region_name,
            forall|j: int| 0 <= j < all.len() ==> (#[trigger] all[j]).wf(),
            forall|a: int, b: int| 0 <= a < b < all.len() ==> (#[trigger] all[a]).name@ != (
            #[trigger] all[b]).name@,
            forall|name: Seq<char>| #[trigger]
                schematic.regions@.contains_key(name) <==> start.regions@.contains_key(name)
                    || exists|j: int| 0 <= j < k && (#[trigger] all[j]).name@ == name,
            forall|name: Seq<char>|
                start.regions@.contains_key(name) ==> #[trigger] schematic.regions@[name]
                    == start.regions@[name],
            forall|j: int|
                0 <= j < k && !start.regions@.contains_key((#[trigger] all[j]).name@)
                    ==> schematic.regions@[all[j].name@] == all[j],
        decreases rest.len(),
    {
        let region = rest.remove(0);
        let ghost before = *schematic;
        proof {
            assert(region == all[k as int]);
            assert(rest@ =~= all.subrange(k as int + 1, total as int));
        }
        let added = schematic.add_region(region);
        proof {
            let current = all[k as int].name@;
            assert forall|name: Seq<char>| #[trigger]
                schematic.regions@.contains_key(name) <==> start.regions@.contains_key(name)
                    || exists|j: int| 0 <= j < k + 1 && (#[trigger] all[j]).name@ == name by {
                if schematic.regions@.contains_key(name) && !start.regions@.contains_key(name) {
                    if before.regions@.contains_key(name) {
                        let j = choose|j: int| 0 <= j < k && (#[trigger] all[j]).name@ == name;
                        assert(0 <= j < k + 1 && all[j].name@ == name);
                    } else {
                        assert(all[k as int].name@ == name);
                    }
                }
                if exists|j: int| 0 <= j < k + 1 && (#[trigger] all[j]).name@ == name {
                    let j = choose|j: int| 0 <= j < k + 1 && (#[trigger] all[j]).name@ == name;
                    if j < k {
                        assert(all[j].name@ == name);
                        assert(before.regions@.contains_key(name));
                    }
                }
            }
            assert forall|j: int|
                0 <= j < k + 1 && !start.regions@.contains_key(
                    (#[trigger] all[j]).name@,
                ) implies schematic.regions@[all[j].name@] == all[j] by {
                if j < k {
                    assert(all[j].name@ != all[k as int].name@);
                } else {
                    if before.regions@.contains_key(current) {
                        let e = choose|e: int| 0 <= e < k && (#[trigger] all[e]).name@ == current;
                        assert(all[e].name@ != all[k as int].name@);
                    }
                    assert(added);
                }
            }
        }
        k += 1;
    }
    proof {
        let view = compound_at(root@, "Regions"@).unwrap();
        assert(view == regions@);
        assert(start.regions == old(schematic).regions);
        assert forall|name: Seq<char>|
            schematic.regions@.contains_key(name) <==> old(schematic).regions@.contains_key(name) || (
            view.contains_key(name) && view[name] is Compound) by {
            if exists|j: int| 0 <= j < total && (#[trigger] all[j]).name@ == name {
                let j = choose|j: int| 0 <= j < total && (#[trigger] all[j]).name@ == name;
                assert(view.contains_key(all[j].name@));
            }
            if view.contains_key(name) && view[name] is Compound {
                let j = choose|j: int| 0 <= j < all.len() && (#[trigger] all[j]).name@ == name;
                assert(0 <= j < total && all[j].name@ == name);
            }
        }
        assert forall|name: Seq<char>|
            old(schematic).regions@.contains_key(name) implies #[trigger] schematic.regions@[name]
            == old(schematic).regions@[name] by {}
        assert forall|name: Seq<char>|
            view.contains_key(name) && view[name] is Compound && !old(schematic).regions@.contains_key(name) implies is_region_of(
            view[name]->Compound_0,
            name,
            #[trigger] schematic.regions@[name],
        ) by {
            let j = choose|j: int| 0 <= j < all.len() && (#[trigger] all[j]).name@ == name;
            assert(schematic.regions@[all[j].name@] == all[j]);
        }
    }
    Ok(())
}

/// The text of an optional string, or the empty text.
pub open spec fn text_or_empty(text: Option<Seq<char>>) -> Seq<char> {
    match text {
        Some(t) => t,
        None => Seq::empty(),
    }
}

/// The time `time` as a signed number, or `now` when there is none.
pub open spec fn time_or(time: Option<u64>, now: i64) -> i64 {
    match time {
        Some(t) => t as i64,
        None => now,
    }
}

/// The metadata compound of a schematic: name, description and author
/// (empty when absent), the two times (`now` when absent), the dimensions
/// of the box that covers all regions, the numbers of voxels, of voxels
/// that are not empty and of regions, and the name of the software.
pub open spec fn litematic_metadata(schematic: UniversalSchematic, now: i64) -> Map<
    Seq<char>,
    NbtView,
> {
    let regions = schematic.regions.regions();
    let count = schematic.regions.entries.len() as nat;
    let dimensions = if count == 0 {
        (1i32, 1i32, 1i32)
    } else {
        let b = union_of(regions, count);
        (b.width() as i32, b.height() as i32, b.length() as i32)
    };
    Map::<Seq<char>, NbtView>::empty().insert(
        "Name"@,
        NbtView::String(text_or_empty(text_view(schematic.metadata.name))),
    ).insert(
        "Description"@,
        NbtView::String(text_or_empty(text_view(schematic.metadata.description))),
    ).insert(
        "Author"@,
        NbtView::String(text_or_empty(text_view(schematic.metadata.author))),
    ).insert("TimeCreated"@, NbtView::Long(time_or(schematic.metadata.created, now))).insert(
        "TimeModified"@,
        NbtView::Long(time_or(schematic.metadata.modified, now)),
    ).insert("EnclosingSize"@, triple_nbt(dimensions)).insert(
        "TotalVolume"@,
        NbtView::Int(total_voxels(regions, count) as i32),
    ).insert("TotalBlocks"@, NbtView::Int(total_filled(regions, count) as i32)).insert(
        "RegionCount"@,
        NbtView::Int(count as i32),
    ).insert("Software"@, NbtView::String("UniversalSchematic"@))
}

/// A copy of an optional string, or the empty string.
pub fn string_or_empty(text: &Option<String>) -> (r: String)
    ensures
        r@ == text_or_empty(text_view(*text)),
{
    match text {
        Some(t) => t.clone(),
        None => String::new(),
    }
}

/// The metadata compound of `schematic`; `now` is the time, in
/// milliseconds, that stands in for a time that the schematic lacks.
pub fn create_metadata(schematic: &UniversalSchematic, now: i64) -> (r: NbtMap)
    requires
        schematic.wf(),
        schematic.regions.entries.len() > 0 ==> union_of(
            schematic.regions.regions(),
            schematic.regions.entries.len() as nat,
        ).dimensions_fit(),
    ensures
        r@ == litematic_metadata(*schematic, now),
{
    let mut metadata = NbtMap::new();
    metadata.put("Name", NbtValue::String(string_or_empty(&schematic.metadata.name)));
    metadata.put(
        "Description",
        NbtValue::String(string_or_empty(&schematic.metadata.description)),
    );
    metadata.put("Author", NbtValue::String(string_or_empty(&schematic.metadata.author)));
    let created: i64 = match schematic.metadata.created {
        Some(t) => #[verifier::truncate] (t as i64),
        None => now,
    };
    let modified: i64 = match schematic.metadata.modified {
        Some(t) => #[verifier::truncate] (t as i64),
        None => now,
    };
    metadata.put("TimeCreated", NbtValue::Long(created));
    metadata.put("TimeModified", NbtValue::Long(modified));
    let dimensions = schematic.get_dimensions();
    metadata.put("EnclosingSize", triple_to_nbt(dimensions));
    metadata.put("TotalVolume", NbtValue::Int(schematic.total_volume()));
    metadata.put("TotalBlocks", NbtValue::Int(schematic.total_blocks()));
    metadata.put(
        "RegionCount",
        NbtValue::Int(#[verifier::truncate] (schematic.regions.len() as i32)),
    );
    metadata.put("Software", NbtValue::String("UniversalSchematic".to_string()));
    metadata
}

/// Reads name, description, author and the two times from the compound
/// under `Metadata` of `root` into the metadata of `schematic`; a field
/// that is missing or has the wrong type becomes absent. Without that
/// compound nothing is changed.
pub fn parse_metadata(root: &NbtMap, schematic: &mut UniversalSchematic) -> (r: Result<
    (),
    FormatError,
>)
    ensures
        final(schematic).regions == old(schematic).regions,
        final(schematic).default_region_name == old(schematic).default_region_name,
        match compound_at(root@, "Metadata"@) {
            None => r == Err::<(), FormatError>(FormatError::Nbt(NbtError::Metadata)) && *final(schematic) == *old(schematic),
            Some(metadata) => {
                &&& r is Ok
                &&& text_view(final(schematic).metadata.name) == string_at(metadata, "Name"@)
                &&& text_view(final(schematic).metadata.description) == string_at(
                    metadata,
                    "Description"@,
                )
                &&& text_view(final(schematic).metadata.author) == string_at(metadata, "Author"@)
                &&& final(schematic).metadata.created == unsigned(long_at(metadata, "TimeCreated"@))
                &&& final(schematic).metadata.modified == unsigned(
                    long_at(metadata, "TimeModified"@),
                )
                &&& final(schematic).metadata.lm_version == old(schematic).metadata.lm_version
                &&& final(schematic).metadata.mc_version == old(schematic).metadata.mc_version
                &&& final(schematic).metadata.we_version == old(schematic).metadata.we_version
            },
        },
{
    let metadata = match root.get_compound("Metadata") {
        Some(metadata) => metadata,
        None => {
            return Err(FormatError::Nbt(NbtError::Metadata));
        },
    };
    schematic.metadata.name = text_of(metadata, "Name");
    schematic.metadata.description = text_of(metadata, "Description");
    schematic.metadata.author = text_of(metadata, "Author");
    schematic.metadata.created = time_of(metadata, "TimeCreated");
    schematic.metadata.modified = time_of(metadata, "TimeModified");
    Ok(())
}

/// The version of the data that a schematic without one is given.
pub const DEFAULT_DATA_VERSION: i32 = 3700;

/// The structured value of `schematic`: the format version 6.1, the data
/// version, the metadata and the regions.
pub fn to_litematic(schematic: &UniversalSchematic, now: i64) -> (r: NbtMap)
    requires
        schematic.wf(),
        schematic.regions.entries.len() > 0 ==> union_of(
            schematic.regions.regions(),
            schematic.regions.entries.len() as nat,
        ).dimensions_fit(),
    ensures
        r@.dom() == set!["Version"@, "SubVersion"@, "MinecraftDataVersion"@, "Metadata"@, "Regions"@],
        r@["Version"@] == NbtView::Int(6),
        r@["SubVersion"@] == NbtView::Int(1),
        r@["MinecraftDataVersion"@] == NbtView::Int(
            match schematic.metadata.mc_version {
                Some(v) => v,
                None => DEFAULT_DATA_VERSION,
            },
        ),
        r@["Metadata"@] == NbtView::Compound(litematic_metadata(*schematic, now)),
        r@["Regions"@] is Compound,
        r@["Regions"@]->Compound_0.dom() == schematic.regions@.dom(),
        forall|name: Seq<char>| #[trigger]
            schematic.regions@.contains_key(name) ==> is_region_nbt(
                r@["Regions"@]->Compound_0[name],
                schematic.regions@[name],
            ),
{
    let mut root = NbtMap::new();
    root.put("Version", NbtValue::Int(6));
    root.put("SubVersion", NbtValue::Int(1));
    let data_version = match schematic.metadata.mc_version {
        Some(v) => v,
        None => DEFAULT_DATA_VERSION,
    };
    root.put("MinecraftDataVersion", NbtValue::Int(data_version));
    root.put("Metadata", NbtValue::Compound(create_metadata(schematic, now)));
    root.put("Regions", NbtValue::Compound(create_regions(schematic)));
    proof {
        reveal_strlit("Version");
        reveal_strlit("SubVersion");
        reveal_strlit("MinecraftDataVersion");
        reveal_strlit("Metadata");
        reveal_strlit("Regions");
        lemma_format_names();
        assert(root@.dom() =~= set![
            "Version"@,
            "SubVersion"@,
            "MinecraftDataVersion"@,
            "Metadata"@,
            "Regions"@,
        ]);
    }
    root
}

/// The five names of the top of the structured value are different from
/// one another.
pub proof fn lemma_format_names()
    ensures
        "Version"@ != "SubVersion"@,
        "Version"@ != "MinecraftDataVersion"@,
        "Version"@ != "Metadata"@,
        "Version"@ != "Regions"@,
        "SubVersion"@ != "MinecraftDataVersion"@,
        "SubVersion"@ != "Metadata"@,
        "SubVersion"@ != "Regions"@,
        "MinecraftDataVersion"@ != "Metadata"@,
        "MinecraftDataVersion"@ != "Regions"@,
        "Metadata"@ != "Regions"@,
{
    reveal_strlit("Version");
    reveal_strlit("SubVersion");
    reveal_strlit("MinecraftDataVersion");
    reveal_strlit("Metadata");
    reveal_strlit("Regions");
    assert("Version"@.len() == 7);
    assert("SubVersion"@.len() == 10);
    assert("MinecraftDataVersion"@.len() == 20);
    assert("Metadata"@.len() == 8);
    assert("Regions"@.len() == 7);
    assert("Version"@[0] == 'V');
    assert("Regions"@[0] == 'R');
}

/// The schematic that the structured value `root` describes: one called
/// `Unnamed` without regions, with the metadata and the regions of `root`
/// read into it.
pub fn from_litematic(root: &NbtMap) -> (r: Result<UniversalSchematic, FormatError>)
    ensures
        match r {
            Ok(schematic) => {
                &&& schematic.wf()
                &&& compound_at(root@, "Metadata"@).is_some()
                &&& compound_at(root@, "Regions"@).is_some()
                &&& text_view(schematic.metadata.name) == string_at(
                    compound_at(root@, "Metadata"@).unwrap(),
                    "Name"@,
                )
                &&& text_view(schematic.metadata.description) == string_at(
                    compound_at(root@, "Metadata"@).unwrap(),
                    "Description"@,
                )
                &&& text_view(schematic.metadata.author) == string_at(
                    compound_at(root@, "Metadata"@).unwrap(),
                    "Author"@,
                )
                &&& schematic.metadata.created == unsigned(
                    long_at(compound_at(root@, "Metadata"@).unwrap(), "TimeCreated"@),
                )
                &&& schematic.metadata.modified == unsigned(
                    long_at(compound_at(root@, "Metadata"@).unwrap(), "TimeModified"@),
                )
                &&& schematic.metadata.lm_version.is_none()
                &&& schematic.metadata.mc_version.is_none()
                &&& schematic.metadata.we_version.is_none()
                &&& schematic.default_region_name@ == first_region_name(root, "Main"@)
                &&& forall|name: Seq<char>|
                    schematic.regions@.contains_key(name) <==> compound_at(
                        root@,
                        "Regions"@,
                    ).unwrap().contains_key(name) && compound_at(
                        root@,
                        "Regions"@,
                    ).unwrap()[name] is Compound
                &&& forall|name: Seq<char>|
                    compound_at(root@, "Regions"@).unwrap().contains_key(name) && compound_at(
                        root@,
                        "Regions"@,
                    ).unwrap()[name] is Compound ==> is_region_of(
                        compound_at(root@, "Regions"@).unwrap()[name]->Compound_0,
                        name,
                        #[trigger] schematic.regions@[name],
                    )
            },
            Err(e) => if compound_at(root@, "Metadata"@).is_none() {
                e == FormatError::Nbt(NbtError::Metadata)
            } else if compound_at(root@, "Regions"@).is_none() {
                e == FormatError::Nbt(NbtError::Regions)
            } else {
                exists|name: Seq<char>|
                    compound_at(root@, "Regions"@).unwrap().contains_key(name) && compound_at(
                        root@,
                        "Regions"@,
                    ).unwrap()[name] is Compound && #[trigger] region_fails_with(
                        compound_at(root@, "Regions"@).unwrap()[name]->Compound_0,
                        e,
                    )
            },
        },
{
    let mut schematic = UniversalSchematic::new("Unnamed".to_string());
    match parse_metadata(root, &mut schematic) {
        Ok(_) => {},
        Err(e) => {
            return Err(e);
        },
    }
    proof {
        assert(schematic.regions@ =~= Map::<Seq<char>, Region>::empty());
    }
    match parse_regions(root, &mut schematic) {
        Ok(_) => {},
        Err(e) => {
            return Err(e);
        },
    }
    Ok(schematic)
}

/// Whether the structured value `root` has the two tags by which this
/// format is known: `Regions` and `Metadata`.
pub fn is_litematic(root: &NbtMap) -> (r: bool)
    ensures
        r == (root@.contains_key("Regions"@) && root@.contains_key("Metadata"@)),
{
    root.contains_key("Regions") && root.contains_key("Metadata")
}

} // verus!
