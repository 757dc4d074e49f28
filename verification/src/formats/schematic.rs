//! The block data of the palette-based container format: a stream of block
//! indices, each written as a variable-length number.
//!
//! A variable-length number holds seven bits of its value in each byte,
//! least significant group first; the high bit of a byte says that another
//! byte follows.

use crate::block_entity::{block_entity_nbt, block_entity_of_nbt, BlockEntity, BlockEntityView, PlacedEntity};
use crate::block_state::{air_view, block_state_text, BlockState, BlockStateView};
use crate::entity::{entity_nbt, entity_of_nbt, entity_views, Entity, EntityView};
use crate::error::{DecodeError, FormatError, NbtError};
use crate::formats::block_text::{block_state_of_text, parse_block_state};
use crate::palette::views;
use crate::metadata::{metadata_nbt, text_view};
use crate::packing;
use crate::region::{box_fits, box_volume, checked_box_volume, triple_array, triple_to_array, Region};
use crate::universal_schematic::{
    folded_block,
    folded_block_entities,
    folded_entities,
    folded_palette,
    union_of,
    UniversalSchematic,
};
use crate::utils::nbt::{
    byte_array_at,
    compound_at,
    int_at,
    is_last_with,
    lemma_bound,
    lemma_bound_has_entry,
    lemma_list_view,
    list_at,
    list_view,
    short_at,
    string_at,
    NbtMap,
    NbtValue,
    NbtView,
};
use vstd::prelude::*;

verus! {

/// The variable-length form of `n`.
pub open spec fn varint(n: nat) -> Seq<u8>
    decreases n,
{
    if n < 128 {
        seq![n as u8]
    } else {
        seq![(n % 128 + 128) as u8] + varint(n / 128)
    }
}

/// Two to the power `7 * group`, the weight of the group of seven bits
/// that the byte `group` of a number holds.
pub open spec fn group_weight(group: nat) -> nat
    decreases group,
{
    if group == 0 {
        1
    } else {
        128 * group_weight((group - 1) as nat)
    }
}

/// What reading a variable-length number gives when the bytes from
/// `position` on are its groups `group` and later: the value of those
/// groups, each at its weight, and the position behind the number.
pub open spec fn varint_tail(data: Seq<u8>, position: int, group: nat) -> Result<
    (nat, int),
    DecodeError,
>
    decreases 5 - group,
{
    if group >= 5 {
        Err(DecodeError::VarintLength)
    } else if position < 0 || position >= data.len() {
        Err(DecodeError::VarintEnd)
    } else if data[position] < 128 {
        Ok(((data[position] as nat) * group_weight(group), position + 1))
    } else {
        match varint_tail(data, position + 1, group + 1) {
            Ok((rest, next)) => Ok(
                (((data[position] - 128) as nat) * group_weight(group) + rest, next),
            ),
            Err(e) => Err(e),
        }
    }
}

/// What reading a variable-length number at `position` gives: its value,
/// cut to 32 bits, and the position behind it; or the reason why there is
/// no number.
pub open spec fn varint_at(data: Seq<u8>, position: int) -> Result<(u32, int), DecodeError> {
    match varint_tail(data, position, 0) {
        Ok((value, next)) => Ok(((value % 0x1_0000_0000) as u32, next)),
        Err(e) => Err(e),
    }
}

/// The weights of the five groups of a 32-bit number.
pub proof fn lemma_group_weights()
    ensures
        group_weight(0) == 1,
        group_weight(1) == 128,
        group_weight(2) == 128 * 128,
        group_weight(3) == 128 * 128 * 128,
        group_weight(4) == 128 * 128 * 128 * 128,
{
    reveal_with_fuel(group_weight, 6);
}

/// The variable-length form of `value`.
pub fn encode_varint(value: u32) -> (r: Vec<u8>)
    ensures
        r@ == varint(value as nat),
        1 <= r.len() <= 5,
{
    let mut bytes: Vec<u8> = Vec::new();
    let mut val: u32 = value;
    proof {
        lemma_varint_len(value as nat);
        assert(bytes@ + varint(val as nat) =~= varint(value as nat));
    }
    while val >= 128
        invariant
            bytes@ + varint(val as nat) == varint(value as nat),
        decreases val,
    {
        let byte: u8 = (val % 128 + 128) as u8;
        proof {
            assert(bytes@.push(byte) + varint((val / 128) as nat) =~= bytes@ + varint(val as nat));
        }
        bytes.push(byte);
        val = val / 128;
    }
    bytes.push(val as u8);
    proof {
        assert(bytes@ =~= varint(value as nat));
    }
    bytes
}

/// The variable-length form of a 32-bit number has one to five bytes.
pub proof fn lemma_varint_len(n: nat)
    ensures
        1 <= varint(n).len(),
        n < 128 ==> varint(n).len() == 1,
        n < 128 * 128 ==> varint(n).len() <= 2,
        n < 128 * 128 * 128 ==> varint(n).len() <= 3,
        n < 128 * 128 * 128 * 128 ==> varint(n).len() <= 4,
        n < 0x1_0000_0000 ==> varint(n).len() <= 5,
    decreases n,
{
    if n >= 128 {
        lemma_varint_len(n / 128);
    }
}

/// Reads the variable-length number that begins at `position`. Of a
/// number of five bytes the bits beyond the 32nd are dropped.
pub fn decode_varint(data: &[u8], position: usize) -> (r: Result<(u32, usize), DecodeError>)
    ensures
        match r {
            Ok((value, next)) => varint_at(data@, position as int) == Ok::<
                (u32, int),
                DecodeError,
            >((value, next as int)) && position < next <= data.len(),
            Err(e) => varint_at(data@, position as int) == Err::<(u32, int), DecodeError>(e),
        },
{
    let mut result: u64 = 0;
    let mut weight: u64 = 1;
    let mut group: usize = 0;
    let mut at: usize = position;
    loop
        invariant
            group <= 4,
            weight == group_weight(group as nat),
            weight <= 128 * 128 * 128 * 128,
            result < weight,
            position + group == at,
            at <= data.len() || group == 0,
            match varint_tail(data@, at as int, group as nat) {
                Ok((rest, next)) => varint_tail(data@, position as int, 0) == Ok::<
                    (nat, int),
                    DecodeError,
                >((result as nat + rest, next)),
                Err(e) => varint_tail(data@, position as int, 0) == Err::<(nat, int), DecodeError>(e),
            },
        decreases 5 - group,
    {
        if at >= data.len() {
            return Err(DecodeError::VarintEnd);
        }
        let byte = data[at];
        proof {
            lemma_group_weights();
            assert(group_weight((group + 1) as nat) == 128 * group_weight(group as nat));
        }
        if byte < 128 {
            proof {
                assert((byte as u64) * weight <= 127 * weight) by (nonlinear_arith)
                    requires
                        byte <= 127,
                        weight >= 0,
                ;
            }
            let total: u64 = result + (byte as u64) * weight;
            return Ok(((total % 0x1_0000_0000) as u32, at + 1));
        }
        proof {
            assert(((byte - 128) as u64) * weight <= 127 * weight) by (nonlinear_arith)
                requires
                    128 <= byte <= 255,
                    weight >= 0,
            ;
        }
        result = result + ((byte - 128) as u64) * weight;
        if group == 4 {
            proof {
                assert(varint_tail(data@, at + 1, 5) == Err::<(nat, int), DecodeError>(
                    DecodeError::VarintLength,
                ));
                assert(varint_tail(data@, at as int, 4) == Err::<(nat, int), DecodeError>(
                    DecodeError::VarintLength,
                ));
            }
            return Err(DecodeError::VarintLength);
        }
        weight = weight * 128;
        group += 1;
        at += 1;
    }
}

/// Reading the variable-length form of a number gives the number back,
/// whatever follows it.
pub proof fn lemma_varint_round_trip(value: u32, before: Seq<u8>, after: Seq<u8>)
    ensures
        varint_at(before + varint(value as nat) + after, before.len() as int) == Ok::<
            (u32, int),
            DecodeError,
        >((value, (before.len() + varint(value as nat).len()) as int)),
{
    lemma_varint_len(value as nat);
    lemma_group_weights();
    lemma_varint_tail(value as nat, before, after, 0, 0);
}

proof fn lemma_varint_tail(n: nat, before: Seq<u8>, after: Seq<u8>, offset: nat, group: nat)
    requires
        offset <= varint(n).len(),
        group + varint(n).len() <= 5,
    ensures
        varint_tail(before + varint(n) + after, (before.len() + 0) as int, group) == Ok::<
            (nat, int),
            DecodeError,
        >((n * group_weight(group), (before.len() + varint(n).len()) as int)),
    decreases n,
{
    let data = before + varint(n) + after;
    let position = before.len() as int;
    assert(data[position] == varint(n)[0]);
    if n < 128 {
    } else {
        let head = seq![(n % 128 + 128) as u8];
        assert(before + varint(n) + after =~= (before + head) + varint(n / 128) + after);
        lemma_varint_tail(n / 128, before + head, after, 0, group + 1);
        assert((before + head).len() == position + 1);
        assert(group_weight(group + 1) == 128 * group_weight(group));
        assert((n % 128) * group_weight(group) + (n / 128) * (128 * group_weight(group)) == n
            * group_weight(group)) by (nonlinear_arith);
    }
}

/// The numbers that stand one after another in `data` from `position` up
/// to its end, or the reason why one of them cannot be read. (A number
/// that did not move the position on would end the reading; by
/// `lemma_varint_advances` there is none.)
pub open spec fn blocks_from(data: Seq<u8>, position: int) -> Result<Seq<u32>, DecodeError>
    decreases data.len() - position,
{
    if position < 0 || position >= data.len() {
        Ok(Seq::empty())
    } else {
        let first = varint_at(data, position);
        if first is Err {
            Err(first->Err_0)
        } else if (first->Ok_0).1 <= position || (first->Ok_0).1 > data.len() {
            Err(DecodeError::VarintEnd)
        } else {
            match blocks_from(data, (first->Ok_0).1) {
                Ok(rest) => Ok(seq![(first->Ok_0).0] + rest),
                Err(e) => Err(e),
            }
        }
    }
}

/// What `parse_block_data` makes of `data`: the numbers in it when they
/// can all be read and are as many as the volume, and else the reason for
/// rejecting the data.
pub open spec fn block_data(data: Seq<u8>, volume: int) -> Result<Seq<u32>, DecodeError> {
    match blocks_from(data, 0) {
        Ok(blocks) => if blocks.len() == volume {
            Ok(blocks)
        } else {
            Err(DecodeError::BlockCount)
        },
        Err(e) => Err(e),
    }
}

/// The block indices that `data` holds as variable-length numbers, one
/// after another up to the end of the data: exactly `width * height *
/// length` of them, or the data is rejected.
pub fn parse_block_data(data: &[u8], width: u32, height: u32, length: u32) -> (r: Result<
    Vec<u32>,
    DecodeError,
>)
    ensures
        match r {
            Ok(blocks) => block_data(data@, width * height * length) == Ok::<
                Seq<u32>,
                DecodeError,
            >(blocks@),
            Err(e) => block_data(data@, width * height * length) == Err::<Seq<u32>, DecodeError>(e),
        },
{
    let mut blocks: Vec<u32> = Vec::new();
    let mut position: usize = 0;
    proof {
        match blocks_from(data@, 0) {
            Ok(rest) => {
                assert(blocks@ + rest =~= rest);
            },
            Err(e) => {},
        }
    }
    while position < data.len()
        invariant
            position <= data.len(),
            match blocks_from(data@, position as int) {
                Ok(rest) => blocks_from(data@, 0) == Ok::<Seq<u32>, DecodeError>(blocks@ + rest),
                Err(e) => blocks_from(data@, 0) == Err::<Seq<u32>, DecodeError>(e),
            },
        decreases data.len() - position,
    {
        match decode_varint(data, position) {
            Ok((value, next)) => {
                proof {
                    match blocks_from(data@, next as int) {
                        Ok(rest) => {
                            assert(blocks@.push(value) + rest =~= blocks@ + (seq![value] + rest));
                        },
                        Err(e) => {},
                    }
                }
                blocks.push(value);
                position = next;
            },
            Err(e) => {
                return Err(e);
            },
        }
    }
    proof {
        assert(blocks_from(data@, position as int) == Ok::<Seq<u32>, DecodeError>(Seq::empty()));
        assert(blocks@ + Seq::<u32>::empty() =~= blocks@);
        assert(0 <= width * height <= 0xffff_ffff * 0xffff_ffff) by (nonlinear_arith)
            requires
                0 <= width <= 0xffff_ffff,
                0 <= height <= 0xffff_ffff,
        ;
        assert(0 <= width * height * length <= 0xffff_ffff * 0xffff_ffff * 0xffff_ffff)
            by (nonlinear_arith)
            requires
                0 <= width * height <= 0xffff_ffff * 0xffff_ffff,
                0 <= length <= 0xffff_ffff,
        ;
    }
    let expected: u128 = width as u128 * height as u128 * length as u128;
    if blocks.len() as u128 != expected {
        return Err(DecodeError::BlockCount);
    }
    Ok(blocks)
}

/// A number takes at least one byte and ends inside the data, so the
/// reading of numbers one after another always moves on.
pub proof fn lemma_varint_advances(data: Seq<u8>, position: int, group: nat)
    ensures
        match varint_tail(data, position, group) {
            Ok((_, next)) => position < next <= data.len(),
            Err(_) => true,
        },
    decreases 5 - group,
{
    if group < 5 && 0 <= position < data.len() && data[position] >= 128 {
        lemma_varint_advances(data, position + 1, group + 1);
    }
}

/// The text forms of the entries of a palette, in order.
pub open spec fn palette_texts(palette: Seq<BlockState>) -> Seq<Seq<char>> {
    Seq::new(
        palette.len(),
        |i: int| block_state_text(palette[i].name@, palette[i].properties.entries()),
    )
}

/// The compound that binds the text form of each entry of a palette to
/// the index of the entry; of two entries with the same text form the
/// later one counts.
pub open spec fn palette_ids(texts: Seq<Seq<char>>) -> Map<Seq<char>, NbtView>
    decreases texts.len(),
{
    if texts.len() == 0 {
        Map::empty()
    } else {
        palette_ids(texts.drop_last()).insert(texts.last(), NbtView::Int((texts.len() - 1) as i32))
    }
}

/// The palette compound of the container format, and the largest index
/// in it (0 for an empty palette).
pub fn convert_palette(palette: &Vec<BlockState>) -> (r: (NbtMap, i32))
    ensures
        r.0@ == palette_ids(palette_texts(palette@)),
        r.1 == if palette.len() == 0 {
            0
        } else {
            (palette.len() - 1) as i32
        },
{
    let mut nbt_palette = NbtMap::new();
    let mut max_id: usize = 0;
    let mut id: usize = 0;
    let ghost texts = palette_texts(palette@);
    proof {
        assert(texts.take(0) =~= Seq::<Seq<char>>::empty());
    }
    while id < palette.len()
        invariant
            id <= palette.len(),
            texts == palette_texts(palette@),
            nbt_palette@ == palette_ids(texts.take(id as int)),
            max_id == if id == 0 {
                0
            } else {
                (id - 1) as int
            },
        decreases palette.len() - id,
    {
        let key = palette[id].to_string();
        proof {
            assert(texts.take(id as int + 1).drop_last() =~= texts.take(id as int));
            assert(texts.take(id as int + 1).last() == key@);
        }
        nbt_palette.insert(key, NbtValue::Int(#[verifier::truncate] (id as i32)));
        max_id = id;
        id += 1;
    }
    proof {
        assert(texts.take(palette.len() as int) =~= texts);
    }
    (nbt_palette, #[verifier::truncate] (max_id as i32))
}

/// The structured value of a block entity held at `position`: its own
/// structured value with `position` under `Pos` as an array of ints.
pub open spec fn placed_entity_nbt(entry: PlacedEntity) -> NbtView {
    NbtView::Compound(block_entity_nbt(entry.1)->Compound_0.insert("Pos"@, triple_array(entry.0)))
}

/// The structured values of the block entities of `region`, each with the
/// position it is held at.
pub fn convert_block_entities(region: &Region) -> (r: Vec<NbtValue>)
    ensures
        list_view(r@) == Seq::new(
            region.block_entities.entries().len(),
            |i: int| placed_entity_nbt(region.block_entities.entries()[i]),
        ),
{
    let n = region.block_entities.len();
    let mut list: Vec<NbtValue> = Vec::new();
    let mut i: usize = 0;
    while i < n
        invariant
            i <= n,
            n == region.block_entities.entries().len(),
            list.len() == i,
            forall|j: int|
                0 <= j < i ==> (#[trigger] list[j])@ == placed_entity_nbt(
                    region.block_entities.entries()[j],
                ),
        decreases n - i,
    {
        let position = region.block_entities.key_at(i);
        let value = region.block_entities.value_at(i).to_nbt();
        let tag = match value {
            NbtValue::Compound(compound) => {
                let mut compound = compound;
                compound.put("Pos", triple_to_array(position));
                NbtValue::Compound(compound)
            },
            other => other,
        };
        list.push(tag);
        i += 1;
    }
    proof {
        lemma_list_view(list@);
        assert(list_view(list@) =~= Seq::new(
            region.block_entities.entries().len(),
            |i: int| placed_entity_nbt(region.block_entities.entries()[i]),
        ));
    }
    list
}

/// The structured values of the entities of `region`.
pub fn convert_entities(region: &Region) -> (r: Vec<NbtValue>)
    ensures
        list_view(r@) == Seq::new(
            region.entities.len() as nat,
            |i: int| entity_nbt(region.entities[i]@),
        ),
{
    region.get_entities_nbt()
}

/// The bytes of `blocks`, each index as a variable-length number.
pub open spec fn block_bytes(blocks: Seq<usize>) -> Seq<u8>
    decreases blocks.len(),
{
    if blocks.len() == 0 {
        Seq::empty()
    } else {
        block_bytes(blocks.drop_last()) + varint((blocks.last() as u32) as nat)
    }
}

/// The byte `b` as a signed number with the same bits.
pub open spec fn as_signed(b: u8) -> i8 {
    b as i8
}

/// The byte `b` as an unsigned number with the same bits.
pub open spec fn as_unsigned(b: i8) -> u8 {
    b as u8
}

/// The block data of the container format: the palette indices of
/// `blocks` as variable-length numbers, byte after byte as signed
/// numbers.
pub fn encode_block_data(blocks: &Vec<usize>) -> (r: Vec<i8>)
    ensures
        r@ == block_bytes(blocks@).map_values(|b: u8| as_signed(b)),
{
    let mut data: Vec<i8> = Vec::new();
    let mut i: usize = 0;
    proof {
        assert(blocks@.take(0) =~= Seq::<usize>::empty());
        assert(data@ =~= block_bytes(blocks@.take(0)).map_values(|b: u8| as_signed(b)));
    }
    while i < blocks.len()
        invariant
            i <= blocks.len(),
            data@ == block_bytes(blocks@.take(i as int)).map_values(|b: u8| as_signed(b)),
        decreases blocks.len() - i,
    {
        let bytes = encode_varint(#[verifier::truncate] (blocks[i] as u32));
        let ghost before = data@;
        let mut k: usize = 0;
        while k < bytes.len()
            invariant
                k <= bytes.len(),
                data@ == before + bytes@.take(k as int).map_values(|b: u8| as_signed(b)),
            decreases bytes.len() - k,
        {
            data.push(#[verifier::truncate] (bytes[k] as i8));
            proof {
                assert(bytes@.take(k as int + 1).map_values(|b: u8| as_signed(b))
                    =~= bytes@.take(k as int).map_values(|b: u8| as_signed(b)).push(
                    as_signed(bytes[k as int]),
                ));
            }
            k += 1;
        }
        proof {
            assert(bytes@.take(bytes.len() as int) =~= bytes@);
            assert(blocks@.take(i as int + 1).drop_last() =~= blocks@.take(i as int));
            assert(data@ =~= block_bytes(blocks@.take(i as int + 1)).map_values(
                |b: u8| as_signed(b),
            ));
        }
        i += 1;
    }
    proof {
        assert(blocks@.take(blocks.len() as int) =~= blocks@);
    }
    data
}

/// The bytes of `data` as unsigned numbers with the same bits.
pub fn unsigned_bytes(data: &Vec<i8>) -> (r: Vec<u8>)
    ensures
        r@ == data@.map_values(|b: i8| as_unsigned(b)),
{
    let mut bytes: Vec<u8> = Vec::new();
    let mut i: usize = 0;
    while i < data.len()
        invariant
            i <= data.len(),
            bytes@ == data@.take(i as int).map_values(|b: i8| as_unsigned(b)),
        decreases data.len() - i,
    {
        bytes.push(#[verifier::truncate] (data[i] as u8));
        proof {
            assert(data@.take(i as int + 1).map_values(|b: i8| as_unsigned(b)) =~= data@.take(
                i as int,
            ).map_values(|b: i8| as_unsigned(b)).push(as_unsigned(data[i as int])));
        }
        i += 1;
    }
    proof {
        assert(data@.take(data.len() as int) =~= data@);
    }
    bytes
}

/// The version of the data that a schematic without one is given.
pub const DEFAULT_DATA_VERSION: i32 = 1343;

/// The greatest width, height or length that the container format can
/// hold.
pub const MAX_DIMENSION: i32 = 32767;

/// `merged` is what `get_merged_region` gives for `schematic`.
pub open spec fn is_merged_region(schematic: UniversalSchematic, merged: Region) -> bool {
    let regions = schematic.regions.regions();
    let count = schematic.regions.entries.len() as nat;
    &&& merged.wf()
    &&& merged.spec_bounding_box() == union_of(regions, count)
    &&& views(merged.palette@) == folded_palette(regions, count)
    &&& forall|x: int, y: int, z: int| #[trigger]
        merged.block_at(x, y, z) == folded_block(regions, count, x, y, z)
    &&& merged.name == regions[0].name
    &&& entity_views(merged.entities@) == folded_entities(regions, count)
    &&& merged.block_entities@ == folded_block_entities(regions, count)
}

/// The block entities of the first `count` of `regions`, one region after
/// another, each with the position it is held at.
pub open spec fn all_block_entities(regions: Seq<Region>, count: nat) -> Seq<NbtView>
    decreases count,
{
    if count == 0 {
        Seq::empty()
    } else {
        all_block_entities(regions, (count - 1) as nat) + Seq::new(
            regions[count - 1].block_entities.entries().len(),
            |i: int| placed_entity_nbt(regions[count - 1].block_entities.entries()[i]),
        )
    }
}

/// The entities of the first `count` of `regions`, one region after
/// another.
pub open spec fn all_entities(regions: Seq<Region>, count: nat) -> Seq<NbtView>
    decreases count,
{
    if count == 0 {
        Seq::empty()
    } else {
        all_entities(regions, (count - 1) as nat) + Seq::new(
            regions[count - 1].entities.len() as nat,
            |i: int| entity_nbt(regions[count - 1].entities[i]@),
        )
    }
}

/// The structured value of `schematic` in the container format with one
/// palette, `merged` being its regions merged into one: the versions, the
/// dimensions of the box that covers the regions, the palette and the
/// blocks of `merged`, the block entities and the entities of all
/// regions, and the metadata.
pub open spec fn sponge_nbt(schematic: UniversalSchematic, merged: Region) -> Map<Seq<char>, NbtView> {
    let regions = schematic.regions.regions();
    let count = schematic.regions.entries.len() as nat;
    let b = union_of(regions, count);
    Map::<Seq<char>, NbtView>::empty().insert("Version"@, NbtView::Int(2)).insert(
        "DataVersion"@,
        NbtView::Int(
            match schematic.metadata.mc_version {
                Some(v) => v,
                None => DEFAULT_DATA_VERSION,
            },
        ),
    ).insert("Width"@, NbtView::Short(b.width() as i16)).insert(
        "Height"@,
        NbtView::Short(b.height() as i16),
    ).insert("Length"@, NbtView::Short(b.length() as i16)).insert(
        "Size"@,
        triple_array((b.width() as i32, b.height() as i32, b.length() as i32)),
    ).insert("Offset"@, triple_array((0i32, 0i32, 0i32))).insert(
        "Palette"@,
        NbtView::Compound(palette_ids(palette_texts(merged.palette@))),
    ).insert(
        "PaletteMax"@,
        NbtView::Int(
            if merged.palette.len() == 0 {
                0
            } else {
                (merged.palette.len() - 1) as i32
            },
        ),
    ).insert(
        "BlockData"@,
        NbtView::ByteArray(block_bytes(merged.blocks@).map_values(|b: u8| as_signed(b))),
    ).insert("BlockEntities"@, NbtView::List(all_block_entities(regions, count))).insert(
        "Entities"@,
        NbtView::List(all_entities(regions, count)),
    ).insert("Metadata"@, metadata_nbt(schematic.metadata@))
}

/// The structured value of `schematic` in the container format with one
/// palette. The regions are merged into one, in their order, and the
/// blocks of that one are written in its raster order.
pub fn to_schematic(schematic: &UniversalSchematic) -> (r: NbtMap)
    requires
        schematic.wf(),
        schematic.regions.entries.len() > 0,
        ({
            let b = union_of(schematic.regions.regions(), schematic.regions.entries.len() as nat);
            &&& b.width() <= MAX_DIMENSION
            &&& b.height() <= MAX_DIMENSION
            &&& b.length() <= MAX_DIMENSION
            &&& b.small() || b.spec_volume() <= usize::MAX
        }),
    ensures
        exists|merged: Region| #[trigger]
            is_merged_region(*schematic, merged) && r@ == sponge_nbt(*schematic, merged),
{
    let ghost regions = schematic.regions.regions();
    let ghost count = schematic.regions.entries.len() as nat;
    proof {
        assert forall|i: int| 0 <= i < regions.len() implies (#[trigger] regions[i]).wf() by {
            assert(regions[i] == schematic.regions.entries[i].1);
        }
        crate::universal_schematic::lemma_union_of(regions, count, count);
    }
    let mut root = NbtMap::new();
    root.put("Version", NbtValue::Int(2));
    let data_version = match schematic.metadata.mc_version {
        Some(v) => v,
        None => DEFAULT_DATA_VERSION,
    };
    root.put("DataVersion", NbtValue::Int(data_version));
    let bounding_box = schematic.get_bounding_box();
    let (width, height, length) = bounding_box.get_dimensions();
    root.put("Width", NbtValue::Short(width as i16));
    root.put("Height", NbtValue::Short(height as i16));
    root.put("Length", NbtValue::Short(length as i16));
    root.put("Size", triple_to_array((width, height, length)));
    root.put("Offset", triple_to_array((0, 0, 0)));
    let merged_region = schematic.get_merged_region();
    let (palette_nbt, palette_max) = convert_palette(&merged_region.palette);
    root.put("Palette", NbtValue::Compound(palette_nbt));
    root.put("PaletteMax", NbtValue::Int(palette_max));
    root.put("BlockData", NbtValue::ByteArray(encode_block_data(&merged_region.blocks)));
    let mut block_entities: Vec<NbtValue> = Vec::new();
    let mut i: usize = 0;
    while i < schematic.regions.entries.len()
        invariant
            i <= schematic.regions.entries.len(),
            regions == schematic.regions.regions(),
            list_view(block_entities@) == all_block_entities(regions, i as nat),
        decreases schematic.regions.entries.len() - i,
    {
        let mut more = convert_block_entities(&schematic.regions.entries[i].1);
        proof {
            assert(regions[i as int] == schematic.regions.entries[i as int].1);
            lemma_list_append(block_entities@, more@);
        }
        block_entities.append(&mut more);
        i += 1;
    }
    root.put("BlockEntities", NbtValue::List(block_entities));
    let mut entities: Vec<NbtValue> = Vec::new();
    let mut i: usize = 0;
    while i < schematic.regions.entries.len()
        invariant
            i <= schematic.regions.entries.len(),
            regions == schematic.regions.regions(),
            list_view(entities@) == all_entities(regions, i as nat),
        decreases schematic.regions.entries.len() - i,
    {
        let mut more = convert_entities(&schematic.regions.entries[i].1);
        proof {
            assert(regions[i as int] == schematic.regions.entries[i as int].1);
            lemma_list_append(entities@, more@);
        }
        entities.append(&mut more);
        i += 1;
    }
    root.put("Entities", NbtValue::List(entities));
    root.put("Metadata", schematic.metadata.to_nbt());
    proof {
        assert(is_merged_region(*schematic, merged_region));
        assert(root@ == sponge_nbt(*schematic, merged_region));
    }
    root
}

/// The view of two lists put together is the two views put together.
pub proof fn lemma_list_append(first: Seq<NbtValue>, second: Seq<NbtValue>)
    ensures
        list_view(first + second) == list_view(first) + list_view(second),
{
    lemma_list_view(first);
    lemma_list_view(second);
    lemma_list_view(first + second);
    assert(list_view(first + second) =~= list_view(first) + list_view(second));
}

/// The entry `j` is the one that counts for the name `key`, and binds it
/// to an int.
pub open spec fn id_entry(entries: Seq<(String, NbtValue)>, key: Seq<char>, j: int) -> bool {
    is_last_with(entries, key, j) && entries[j].1@ is Int
}

/// The ints of the palette compound `m` are indices from 0 to `max`, each
/// given to one name only.
pub open spec fn ids_fit(m: Map<Seq<char>, NbtView>, max: int) -> bool {
    &&& forall|text: Seq<char>|
        m.contains_key(text) && #[trigger] m[text] is Int ==> 0 <= m[text]->Int_0 <= max
    &&& forall|a: Seq<char>, b: Seq<char>|
        m.contains_key(a) && m.contains_key(b) && #[trigger] m[a] is Int && #[trigger] m[b] is Int
            && m[a]->Int_0 == m[b]->Int_0 ==> a == b
}

/// The name that the palette compound `m` binds to the index `id`, if
/// there is one.
pub open spec fn names(m: Map<Seq<char>, NbtView>, id: int, text: Seq<char>) -> bool {
    m.contains_key(text) && m[text] == NbtView::Int(id as i32)
}

/// `palette` is the palette that the compound `m` describes for indices
/// up to `max`: under every index the block state of the text that `m`
/// binds to it, and the empty block where `m` binds none.
pub open spec fn is_palette_of(m: Map<Seq<char>, NbtView>, max: int, palette: Seq<BlockStateView>) -> bool {
    &&& palette.len() == max + 1
    &&& forall|text: Seq<char>|
        m.contains_key(text) && #[trigger] m[text] is Int ==> palette[m[text]->Int_0 as int]
            == block_state_of_text(text)
    &&& forall|id: int|
        0 <= id <= max && (forall|text: Seq<char>| !#[trigger] names(m, id, text)) ==> #[trigger] palette[id]
            == air_view()
}

/// The palette that `root` describes: as many entries as `PaletteMax`
/// says, each the block state of the text that the compound under
/// `Palette` binds to its index, or the empty block.
pub fn parse_palette(root: &NbtMap) -> (r: Result<Vec<BlockState>, NbtError>)
    ensures
        match r {
            Ok(palette) => {
                &&& compound_at(root@, "Palette"@).is_some()
                &&& int_at(root@, "PaletteMax"@).is_some()
                &&& int_at(root@, "PaletteMax"@).unwrap() >= 0
                &&& ids_fit(
                    compound_at(root@, "Palette"@).unwrap(),
                    int_at(root@, "PaletteMax"@).unwrap() as int,
                )
                &&& is_palette_of(
                    compound_at(root@, "Palette"@).unwrap(),
                    int_at(root@, "PaletteMax"@).unwrap() as int,
                    views(palette@),
                )
            },
            Err(e) => if compound_at(root@, "Palette"@).is_none() {
                e == NbtError::Palette
            } else if int_at(root@, "PaletteMax"@).is_none() || int_at(
                root@,
                "PaletteMax"@,
            ).unwrap() < 0 {
                e == NbtError::PaletteMax
            } else {
                e == NbtError::Palette && !ids_fit(
                    compound_at(root@, "Palette"@).unwrap(),
                    int_at(root@, "PaletteMax"@).unwrap() as int,
                )
            },
        },
{
    let compound = match root.get_compound("Palette") {
        Some(c) => c,
        None => {
            return Err(NbtError::Palette);
        },
    };
    let max = match root.get_int("PaletteMax") {
        Some(max) => max,
        None => {
            return Err(NbtError::PaletteMax);
        },
    };
    if max < 0 {
        return Err(NbtError::PaletteMax);
    }
    let size: usize = max as usize + 1;
    let mut palette: Vec<BlockState> = Vec::new();
    let mut given: Vec<bool> = Vec::new();
    let mut k: usize = 0;
    while k < size
        invariant
            k <= size,
            palette.len() == k,
            given.len() == k,
            forall|i: int| 0 <= i < k ==> (#[trigger] palette[i])@ == air_view(),
            forall|i: int| 0 <= i < k ==> !#[trigger] given[i],
        decreases size - k,
    {
        palette.push(BlockState::new("minecraft:air".to_string()));
        given.push(false);
        k += 1;
    }
    let ghost entries = compound.entries@;
    let ghost m = compound@;
    let mut e: usize = 0;
    while e < compound.entries.len()
        invariant
            e <= compound.entries.len(),
            entries == compound.entries@,
            m == compound@,
            compound_at(root@, "Palette"@) == Some(m),
            int_at(root@, "PaletteMax"@) == Some(max),
            max >= 0,
            size == max + 1,
            palette.len() == size,
            given.len() == size,
            forall|j: int|
                0 <= j < e && #[trigger] id_entry(entries, entries[j].0@, j) ==> 0
                    <= entries[j].1@->Int_0 <= max && given[entries[j].1@->Int_0 as int]
                    && palette[entries[j].1@->Int_0 as int]@ == block_state_of_text(entries[j].0@),
            forall|a: int, b: int|
                0 <= a < e && 0 <= b < e && #[trigger] id_entry(entries, entries[a].0@, a)
                    && #[trigger] id_entry(entries, entries[b].0@, b) && entries[a].1@->Int_0
                    == entries[b].1@->Int_0 ==> a == b,
            forall|id: int|
                0 <= id < size && #[trigger] given[id] ==> exists|j: int|
                    0 <= j < e && #[trigger] id_entry(entries, entries[j].0@, j)
                        && entries[j].1@->Int_0 == id,
            forall|id: int| 0 <= id < size && !given[id] ==> (#[trigger] palette[id])@ == air_view(),
        decreases compound.entries.len() - e,
    {
        let ghost key = entries[e as int].0@;
        let ghost palette_before = palette@;
        let ghost given_before = given@;
        if compound.is_current(e) {
            if let NbtValue::Int(id) = &compound.entries[e].1 {
                proof {
                    lemma_bound(entries, key, e as int);
                }
                if *id < 0 || *id > max {
                    proof {
                        assert(m.contains_key(key) && m[key] is Int);
                        assert(!(0 <= m[key]->Int_0 <= max));
                        assert(!ids_fit(m, max as int));
                    }
                    return Err(NbtError::Palette);
                }
                let index = *id as usize;
                if given[index] {
                    proof {
                        let j = choose|j: int|
                            0 <= j < e && #[trigger] id_entry(entries, entries[j].0@, j)
                                && entries[j].1@->Int_0 == index;
                        let other = entries[j].0@;
                        lemma_bound(entries, other, j);
                        assert(m.contains_key(other) && m[other] is Int && m[key] is Int);
                        assert(other != key);
                        assert(m[other]->Int_0 == m[key]->Int_0);
                        assert(!ids_fit(m, max as int));
                    }
                    return Err(NbtError::Palette);
                }
                let block = parse_block_state(compound.entries[e].0.as_str());
                palette.set(index, block);
                given.set(index, true);
                proof {
                    assert forall|j: int|
                        0 <= j < e + 1 && #[trigger] id_entry(
                            entries,
                            entries[j].0@,
                            j,
                        ) implies 0 <= entries[j].1@->Int_0 <= max
                        && given[entries[j].1@->Int_0 as int]
                        && palette[entries[j].1@->Int_0 as int]@ == block_state_of_text(
                        entries[j].0@,
                    ) by {
                        if j < e {
                            let other = entries[j].1@->Int_0;
                            assert(given_before[other as int]);
                            assert(other != index);
                        }
                    }
                    assert forall|id2: int|
                        0 <= id2 < size && #[trigger] given[id2] implies exists|j: int|
                        0 <= j < e + 1 && #[trigger] id_entry(entries, entries[j].0@, j)
                            && entries[j].1@->Int_0 == id2 by {
                        if id2 == index {
                            assert(id_entry(entries, entries[e as int].0@, e as int));
                        } else {
                            assert(given_before[id2]);
                            let j = choose|j: int|
                                0 <= j < e && #[trigger] id_entry(entries, entries[j].0@, j)
                                    && entries[j].1@->Int_0 == id2;
                            assert(0 <= j < e + 1 && id_entry(entries, entries[j].0@, j));
                        }
                    }
                    assert forall|a: int, b: int|
                        0 <= a < e + 1 && 0 <= b < e + 1 && #[trigger] id_entry(
                            entries,
                            entries[a].0@,
                            a,
                        ) && #[trigger] id_entry(entries, entries[b].0@, b) && entries[a].1@->Int_0
                            == entries[b].1@->Int_0 implies a == b by {
                        if a < e && b == e {
                            assert(given_before[entries[a].1@->Int_0 as int]);
                        }
                        if b < e && a == e {
                            assert(given_before[entries[b].1@->Int_0 as int]);
                        }
                    }
                }
            }
        }
        proof {
            assert forall|id2: int|
                0 <= id2 < size && #[trigger] given[id2] implies exists|j: int|
                0 <= j < e + 1 && #[trigger] id_entry(entries, entries[j].0@, j)
                    && entries[j].1@->Int_0 == id2 by {
                let j = choose|j: int|
                    0 <= j < e + 1 && #[trigger] id_entry(entries, entries[j].0@, j)
                        && entries[j].1@->Int_0 == id2;
                assert(id_entry(entries, entries[j].0@, j));
            }
        }
        e += 1;
    }
    proof {
        assert(ids_fit(m, max as int)) by {
            assert forall|text: Seq<char>| m.contains_key(text) && #[trigger] m[text] is Int implies 0
                <= m[text]->Int_0 <= max by {
                lemma_bound_has_entry(entries, text);
                let j = choose|j: int| is_last_with(entries, text, j);
                lemma_bound(entries, text, j);
                assert(id_entry(entries, entries[j].0@, j));
            }
            assert forall|a: Seq<char>, b: Seq<char>|
                m.contains_key(a) && m.contains_key(b) && #[trigger] m[a] is Int
                    && #[trigger] m[b] is Int && m[a]->Int_0 == m[b]->Int_0 implies a == b by {
                lemma_bound_has_entry(entries, a);
                let ja = choose|j: int| is_last_with(entries, a, j);
                lemma_bound(entries, a, ja);
                lemma_bound_has_entry(entries, b);
                let jb = choose|j: int| is_last_with(entries, b, j);
                lemma_bound(entries, b, jb);
                assert(id_entry(entries, entries[ja].0@, ja));
                assert(id_entry(entries, entries[jb].0@, jb));
            }
        }
        assert(is_palette_of(m, max as int, views(palette@))) by {
            assert forall|text: Seq<char>|
                m.contains_key(text) && #[trigger] m[text] is Int implies views(
                palette@,
            )[m[text]->Int_0 as int] == block_state_of_text(text) by {
                lemma_bound_has_entry(entries, text);
                let j = choose|j: int| is_last_with(entries, text, j);
                lemma_bound(entries, text, j);
                assert(id_entry(entries, entries[j].0@, j));
            }
            assert forall|id: int|
                0 <= id <= max && (forall|text: Seq<char>|
                    !#[trigger] names(m, id, text)) implies #[trigger] views(palette@)[id]
                == air_view() by {
                if given[id] {
                    let j = choose|j: int|
                        0 <= j < entries.len() && #[trigger] id_entry(entries, entries[j].0@, j)
                            && entries[j].1@->Int_0 == id;
                    lemma_bound(entries, entries[j].0@, j);
                    assert(names(m, id, entries[j].0@));
                }
            }
        }
    }
    Ok(palette)
}

/// The block entities that the compounds among `list` describe, in
/// order, or the reason why the first one that describes none does not.
/// Tags that are not compounds are left out.
pub open spec fn strict_block_entities(list: Seq<NbtView>) -> Result<Seq<BlockEntityView>, NbtError>
    decreases list.len(),
{
    if list.len() == 0 {
        Ok(Seq::empty())
    } else if list[0] is Compound && block_entity_of_nbt(list[0]->Compound_0) is Err {
        Err(block_entity_of_nbt(list[0]->Compound_0)->Err_0)
    } else {
        match strict_block_entities(list.drop_first()) {
            Err(e) => Err(e),
            Ok(rest) => if list[0] is Compound {
                Ok(seq![block_entity_of_nbt(list[0]->Compound_0)->Ok_0] + rest)
            } else {
                Ok(rest)
            },
        }
    }
}

/// The entities that the compounds among `list` describe, in order, or
/// the reason why the first one that describes none does not. Tags that
/// are not compounds are left out.
pub open spec fn strict_entities(list: Seq<NbtView>) -> Result<Seq<EntityView>, NbtError>
    decreases list.len(),
{
    if list.len() == 0 {
        Ok(Seq::empty())
    } else if list[0] is Compound && entity_of_nbt(list[0]->Compound_0) is Err {
        Err(entity_of_nbt(list[0]->Compound_0)->Err_0)
    } else {
        match strict_entities(list.drop_first()) {
            Err(e) => Err(e),
            Ok(rest) => if list[0] is Compound {
                Ok(seq![entity_of_nbt(list[0]->Compound_0)->Ok_0] + rest)
            } else {
                Ok(rest)
            },
        }
    }
}

/// The values of a sequence of block entities.
pub open spec fn block_entity_views(entities: Seq<BlockEntity>) -> Seq<BlockEntityView> {
    entities.map_values(|e: BlockEntity| e@)
}

/// The block entities that the list under `BlockEntities` of `root`
/// describes; every compound of the list must describe one.
pub fn parse_block_entities(root: &NbtMap) -> (r: Result<Vec<BlockEntity>, NbtError>)
    ensures
        match r {
            Ok(entities) => list_at(root@, "BlockEntities"@).is_some() && strict_block_entities(
                list_at(root@, "BlockEntities"@).unwrap(),
            ) == Ok::<Seq<BlockEntityView>, NbtError>(block_entity_views(entities@)),
            Err(e) => if list_at(root@, "BlockEntities"@).is_none() {
                e == NbtError::BlockEntities
            } else {
                strict_block_entities(list_at(root@, "BlockEntities"@).unwrap()) == Err::<
                    Seq<BlockEntityView>,
                    NbtError,
                >(e)
            },
        },
{
    let list = match root.get_list("BlockEntities") {
        Some(list) => list,
        None => {
            return Err(NbtError::BlockEntities);
        },
    };
    let ghost tags = list_view(list@);
    let mut entities: Vec<BlockEntity> = Vec::new();
    let mut i: usize = 0;
    proof {
        lemma_list_view(list@);
        assert(tags.skip(0) =~= tags);
        match strict_block_entities(tags) {
            Ok(rest) => {
                assert(block_entity_views(entities@) + rest =~= rest);
            },
            Err(e) => {},
        }
    }
    while i < list.len()
        invariant
            i <= list.len(),
            tags == list_view(list@),
            tags.len() == list.len(),
            list_at(root@, "BlockEntities"@) == Some(tags),
            forall|j: int| 0 <= j < list.len() ==> (#[trigger] tags[j]) == list[j]@,
            match strict_block_entities(tags.skip(i as int)) {
                Ok(rest) => strict_block_entities(tags) == Ok::<Seq<BlockEntityView>, NbtError>(
                    block_entity_views(entities@) + rest,
                ),
                Err(e) => strict_block_entities(tags) == Err::<Seq<BlockEntityView>, NbtError>(e),
            },
        decreases list.len() - i,
    {
        proof {
            assert(tags.skip(i as int).drop_first() =~= tags.skip(i as int + 1));
            assert(tags.skip(i as int)[0] == tags[i as int]);
        }
        if let Some(compound) = list[i].as_compound() {
            match BlockEntity::from_nbt(compound) {
                Ok(entity) => {
                    proof {
                        match strict_block_entities(tags.skip(i as int + 1)) {
                            Ok(rest) => {
                                assert(block_entity_views(entities@.push(entity)) + rest
                                    =~= block_entity_views(entities@) + (seq![entity@] + rest));
                            },
                            Err(e) => {},
                        }
                    }
                    entities.push(entity);
                },
                Err(e) => {
                    return Err(e);
                },
            }
        }
        i += 1;
    }
    proof {
        assert(tags.skip(list.len() as int) =~= Seq::<NbtView>::empty());
        assert(block_entity_views(entities@) + Seq::<BlockEntityView>::empty()
            =~= block_entity_views(entities@));
    }
    Ok(entities)
}

/// The entities that `root` describes: none without `Entities`, and else
/// those of the list under `Entities`, every compound of which must
/// describe one.
pub fn parse_entities(root: &NbtMap) -> (r: Result<Vec<Entity>, NbtError>)
    ensures
        match r {
            Ok(entities) => if !root@.contains_key("Entities"@) {
                entities@ == Seq::<Entity>::empty()
            } else {
                list_at(root@, "Entities"@).is_some() && strict_entities(
                    list_at(root@, "Entities"@).unwrap(),
                ) == Ok::<Seq<EntityView>, NbtError>(entity_views(entities@))
            },
            Err(e) => root@.contains_key("Entities"@) && if list_at(root@, "Entities"@).is_none() {
                e == NbtError::Entities
            } else {
                strict_entities(list_at(root@, "Entities"@).unwrap()) == Err::<
                    Seq<EntityView>,
                    NbtError,
                >(e)
            },
        },
{
    if !root.contains_key("Entities") {
        return Ok(Vec::new());
    }
    let list = match root.get_list("Entities") {
        Some(list) => list,
        None => {
            return Err(NbtError::Entities);
        },
    };
    let ghost tags = list_view(list@);
    let mut entities: Vec<Entity> = Vec::new();
    let mut i: usize = 0;
    proof {
        lemma_list_view(list@);
        assert(tags.skip(0) =~= tags);
        match strict_entities(tags) {
            Ok(rest) => {
                assert(entity_views(entities@) + rest =~= rest);
            },
            Err(e) => {},
        }
    }
    while i < list.len()
        invariant
            i <= list.len(),
            tags == list_view(list@),
            tags.len() == list.len(),
            root@.contains_key("Entities"@),
            list_at(root@, "Entities"@) == Some(tags),
            forall|j: int| 0 <= j < list.len() ==> (#[trigger] tags[j]) == list[j]@,
            match strict_entities(tags.skip(i as int)) {
                Ok(rest) => strict_entities(tags) == Ok::<Seq<EntityView>, NbtError>(
                    entity_views(entities@) + rest,
                ),
                Err(e) => strict_entities(tags) == Err::<Seq<EntityView>, NbtError>(e),
            },
        decreases list.len() - i,
    {
        proof {
            assert(tags.skip(i as int).drop_first() =~= tags.skip(i as int + 1));
            assert(tags.skip(i as int)[0] == tags[i as int]);
        }
        if let Some(compound) = list[i].as_compound() {
            match Entity::from_nbt(compound) {
                Ok(entity) => {
                    proof {
                        match strict_entities(tags.skip(i as int + 1)) {
                            Ok(rest) => {
                                assert(entity_views(entities@.push(entity)) + rest =~= entity_views(
                                    entities@,
                                ) + (seq![entity@] + rest));
                            },
                            Err(e) => {},
                        }
                    }
                    entities.push(entity);
                },
                Err(e) => {
                    return Err(e);
                },
            }
        }
        i += 1;
    }
    proof {
        assert(tags.skip(list.len() as int) =~= Seq::<NbtView>::empty());
        assert(entity_views(entities@) + Seq::<EntityView>::empty() =~= entity_views(entities@));
    }
    Ok(entities)
}

/// The map that holds each of `entities` under its own position; a later
/// one replaces an earlier one at the same position.
pub open spec fn by_own_position(entities: Seq<BlockEntityView>) -> Map<
    (i32, i32, i32),
    BlockEntityView,
>
    decreases entities.len(),
{
    if entities.len() == 0 {
        Map::empty()
    } else {
        by_own_position(entities.drop_last()).insert(entities.last().position, entities.last())
    }
}

/// The name that a structured value gives to its schematic: the string
/// under `Name` of the compound under `Metadata`, or `Unnamed`.
pub open spec fn sponge_name(m: Map<Seq<char>, NbtView>) -> Seq<char> {
    match compound_at(m, "Metadata"@) {
        Some(metadata) => match string_at(metadata, "Name"@) {
            Some(name) => name,
            None => "Unnamed"@,
        },
        None => "Unnamed"@,
    }
}

/// The size that a structured value gives to its region, when width,
/// height and length are there and positive and a region can cover the
/// box; else the first of them that is wrong (the length, when no region
/// can cover the box).
pub open spec fn sponge_size(m: Map<Seq<char>, NbtView>) -> Result<(i32, i32, i32), NbtError> {
    if short_at(m, "Width"@).is_none() || short_at(m, "Width"@).unwrap() <= 0 {
        Err(NbtError::Width)
    } else if short_at(m, "Height"@).is_none() || short_at(m, "Height"@).unwrap() <= 0 {
        Err(NbtError::Height)
    } else if short_at(m, "Length"@).is_none() || short_at(m, "Length"@).unwrap() <= 0 || !box_fits(
        (0i32, 0i32, 0i32),
        (
            short_at(m, "Width"@).unwrap() as i32,
            short_at(m, "Height"@).unwrap() as i32,
            short_at(m, "Length"@).unwrap() as i32,
        ),
    ) {
        Err(NbtError::Length)
    } else {
        Ok(
            (
                short_at(m, "Width"@).unwrap() as i32,
                short_at(m, "Height"@).unwrap() as i32,
                short_at(m, "Length"@).unwrap() as i32,
            ),
        )
    }
}

/// The first tag that is missing or wrong among those that say how large
/// the region is, what its palette is and where its block data are.
pub open spec fn sponge_head_error(m: Map<Seq<char>, NbtView>) -> Option<NbtError> {
    if sponge_size(m) is Err {
        Some(sponge_size(m)->Err_0)
    } else if compound_at(m, "Palette"@).is_none() {
        Some(NbtError::Palette)
    } else if int_at(m, "PaletteMax"@).is_none() || int_at(m, "PaletteMax"@).unwrap() < 0 {
        Some(NbtError::PaletteMax)
    } else if !ids_fit(compound_at(m, "Palette"@).unwrap(), int_at(m, "PaletteMax"@).unwrap() as int) {
        Some(NbtError::Palette)
    } else if byte_array_at(m, "BlockData"@).is_none() {
        Some(NbtError::BlockData)
    } else {
        None
    }
}

/// The palette indices that the block data of a structured value hold,
/// or the reason why the block data are rejected.
pub open spec fn sponge_blocks(m: Map<Seq<char>, NbtView>) -> Result<Seq<u32>, DecodeError> {
    let size = sponge_size(m)->Ok_0;
    let bytes = byte_array_at(m, "BlockData"@).unwrap().map_values(|b: i8| as_unsigned(b));
    match block_data(bytes, size.0 * size.1 * size.2) {
        Err(e) => Err(e),
        Ok(blocks) => if forall|i: int|
            0 <= i < blocks.len() ==> (#[trigger] blocks[i]) <= int_at(m, "PaletteMax"@).unwrap() {
            Ok(blocks)
        } else {
            Err(DecodeError::PaletteIndex)
        },
    }
}

/// The first tag that is missing or wrong among the block entities and
/// the entities.
pub open spec fn sponge_tail_error(m: Map<Seq<char>, NbtView>) -> Option<NbtError> {
    if list_at(m, "BlockEntities"@).is_none() {
        Some(NbtError::BlockEntities)
    } else if strict_block_entities(list_at(m, "BlockEntities"@).unwrap()) is Err {
        Some(strict_block_entities(list_at(m, "BlockEntities"@).unwrap())->Err_0)
    } else if !m.contains_key("Entities"@) {
        None
    } else if list_at(m, "Entities"@).is_none() {
        Some(NbtError::Entities)
    } else if strict_entities(list_at(m, "Entities"@).unwrap()) is Err {
        Some(strict_entities(list_at(m, "Entities"@).unwrap())->Err_0)
    } else {
        None
    }
}

/// The structured value `m` does not describe a schematic, for the reason
/// `e`.
pub open spec fn sponge_fails_with(m: Map<Seq<char>, NbtView>, e: FormatError) -> bool {
    match e {
        FormatError::Nbt(tag) => sponge_head_error(m) == Some(tag) || (sponge_head_error(
            m,
        ).is_none() && sponge_blocks(m) is Ok && sponge_tail_error(m) == Some(tag)),
        FormatError::Decode(reason) => sponge_head_error(m).is_none() && sponge_blocks(m) == Err::<
            Seq<u32>,
            DecodeError,
        >(reason),
    }
}

/// `schematic` is the schematic that the structured value `m` describes:
/// one region called `Main` at the origin, with the size, the palette and
/// the blocks of `m` in raster order, its block entities each at its own
/// position, and its entities; named as `m` says, with the data version
/// of `m`.
pub open spec fn is_schematic_of_sponge(m: Map<Seq<char>, NbtView>, schematic: UniversalSchematic) -> bool {
    &&& sponge_head_error(m).is_none()
    &&& sponge_blocks(m) is Ok
    &&& sponge_tail_error(m).is_none()
    &&& schematic.wf()
    &&& text_view(schematic.metadata.name) == Some(sponge_name(m))
    &&& schematic.metadata.mc_version == int_at(m, "DataVersion"@)
    &&& schematic.metadata.author.is_none()
    &&& schematic.metadata.description.is_none()
    &&& schematic.metadata.created.is_none()
    &&& schematic.metadata.modified.is_none()
    &&& schematic.metadata.lm_version.is_none()
    &&& schematic.metadata.we_version.is_none()
    &&& schematic.default_region_name@ == "Main"@
    &&& schematic.regions.entries.len() == 1
    &&& schematic.regions.entries[0].0@ == "Main"@
    &&& is_region_of_sponge(m, schematic.regions.entries[0].1)
}

/// `region` is the region that the structured value `m` describes.
pub open spec fn is_region_of_sponge(m: Map<Seq<char>, NbtView>, region: Region) -> bool {
    &&& region.name@ == "Main"@
    &&& exists|palette: Seq<BlockStateView>| #[trigger]
        is_palette_of(
            compound_at(m, "Palette"@).unwrap(),
            int_at(m, "PaletteMax"@).unwrap() as int,
            palette,
        ) && region.holds_indexed(
            (0i32, 0i32, 0i32),
            sponge_size(m)->Ok_0,
            palette,
            sponge_blocks(m)->Ok_0.map_values(|b: u32| b as usize),
        )
    &&& region.block_entities@ == by_own_position(
        strict_block_entities(list_at(m, "BlockEntities"@).unwrap())->Ok_0,
    )
    &&& entity_views(region.entities@) == if m.contains_key("Entities"@) {
        strict_entities(list_at(m, "Entities"@).unwrap())->Ok_0
    } else {
        Seq::empty()
    }
}

/// The positive short under `key`, as an int.
pub fn read_dimension(root: &NbtMap, key: &str) -> (r: Option<i32>)
    ensures
        r == match short_at(root@, key@) {
            Some(v) => if v > 0 {
                Some(v as i32)
            } else {
                None
            },
            None => None,
        },
{
    match root.get_short(key) {
        Some(v) => if v > 0 {
            Some(v as i32)
        } else {
            None
        },
        None => None,
    }
}

/// The indices of `blocks` as indices into a palette.
pub fn to_indices(blocks: &Vec<u32>) -> (r: Vec<usize>)
    ensures
        r@ == blocks@.map_values(|b: u32| b as usize),
{
    let mut indices: Vec<usize> = Vec::new();
    let mut i: usize = 0;
    while i < blocks.len()
        invariant
            i <= blocks.len(),
            indices@ == blocks@.take(i as int).map_values(|b: u32| b as usize),
        decreases blocks.len() - i,
    {
        indices.push(blocks[i] as usize);
        proof {
            assert(blocks@.take(i as int + 1).map_values(|b: u32| b as usize) =~= blocks@.take(
                i as int,
            ).map_values(|b: u32| b as usize).push(blocks[i as int] as usize));
        }
        i += 1;
    }
    proof {
        assert(blocks@.take(blocks.len() as int) =~= blocks@);
    }
    indices
}

/// The schematic that the structured value `root` describes.
pub fn from_schematic(root: &NbtMap) -> (r: Result<UniversalSchematic, FormatError>)
    ensures
        match r {
            Ok(schematic) => is_schematic_of_sponge(root@, schematic),
            Err(e) => sponge_fails_with(root@, e),
        },
{
    let name = match root.get_compound("Metadata") {
        Some(metadata) => match metadata.get_string("Name") {
            Some(name) => name.clone(),
            None => "Unnamed".to_string(),
        },
        None => "Unnamed".to_string(),
    };
    let mc_version = root.get_int("DataVersion");
    let width = match read_dimension(root, "Width") {
        Some(v) => v,
        None => {
            return Err(FormatError::Nbt(NbtError::Width));
        },
    };
    let height = match read_dimension(root, "Height") {
        Some(v) => v,
        None => {
            return Err(FormatError::Nbt(NbtError::Height));
        },
    };
    let length = match read_dimension(root, "Length") {
        Some(v) => v,
        None => {
            return Err(FormatError::Nbt(NbtError::Length));
        },
    };
    let size = (width, height, length);
    let volume = match checked_box_volume((0, 0, 0), size) {
        Some(v) => v,
        None => {
            return Err(FormatError::Nbt(NbtError::Length));
        },
    };
    proof {
        assert(box_volume((0i32, 0i32, 0i32), size) == width * height * length);
    }
    let palette = match parse_palette(root) {
        Ok(palette) => palette,
        Err(e) => {
            return Err(FormatError::Nbt(e));
        },
    };
    let data = match root.get_byte_array("BlockData") {
        Some(data) => data,
        None => {
            return Err(FormatError::Nbt(NbtError::BlockData));
        },
    };
    let bytes = unsigned_bytes(data);
    let blocks = match parse_block_data(
        bytes.as_slice(),
        width as u32,
        height as u32,
        length as u32,
    ) {
        Ok(blocks) => blocks,
        Err(e) => {
            return Err(FormatError::Decode(e));
        },
    };
    let indices = to_indices(&blocks);
    let ghost max = int_at(root@, "PaletteMax"@).unwrap();
    let mut region = match Region::from_indexed(
        "Main".to_string(),
        (0, 0, 0),
        size,
        &palette,
        &indices,
    ) {
        Ok(region) => region,
        Err(e) => {
            proof {
                assert(e == DecodeError::PaletteIndex);
                let i = choose|i: int|
                    0 <= i < indices.len() && #[trigger] indices[i] >= palette.len();
                assert(blocks[i] > max);
            }
            return Err(FormatError::Decode(DecodeError::PaletteIndex));
        },
    };
    proof {
        assert forall|i: int| 0 <= i < blocks.len() implies (#[trigger] blocks[i]) <= max by {
            assert(indices[i] < palette.len());
        }
        assert(sponge_blocks(root@) == Ok::<Seq<u32>, DecodeError>(blocks@));
    }
    let ghost built = region;
    let block_entities = match parse_block_entities(root) {
        Ok(list) => list,
        Err(e) => {
            return Err(FormatError::Nbt(e));
        },
    };
    let ghost placed = block_entity_views(block_entities@);
    let mut rest = block_entities;
    let mut k: usize = 0;
    let total = rest.len();
    proof {
        assert(placed.take(0) =~= Seq::<BlockEntityView>::empty());
    }
    while rest.len() > 0
        invariant
            k + rest.len() == total,
            total == placed.len(),
            block_entity_views(rest@) == placed.subrange(k as int, total as int),
            region.block_entities@ == by_own_position(placed.take(k as int)),
            region.name == built.name,
            region.position == built.position,
            region.size == built.size,
            region.blocks == built.blocks,
            region.palette == built.palette,
            region.entities == built.entities,
        decreases rest.len(),
    {
        let ghost before = rest@;
        let entity = rest.remove(0);
        proof {
            assert(block_entity_views(before)[0] == entity@);
            assert(placed[k as int] == entity@);
            assert forall|j: int| 0 <= j < rest@.len() implies block_entity_views(rest@)[j]
                == placed[k + 1 + j] by {
                assert(rest@[j] == before[j + 1]);
                assert(block_entity_views(before)[j + 1] == placed.subrange(
                    k as int,
                    total as int,
                )[j + 1]);
            }
            assert(block_entity_views(rest@) =~= placed.subrange(k as int + 1, total as int));
            assert(placed.take(k as int + 1).drop_last() =~= placed.take(k as int));
        }
        region.add_block_entity(entity);
        k += 1;
    }
    proof {
        assert(placed.take(total as int) =~= placed);
    }
    let entities = match parse_entities(root) {
        Ok(list) => list,
        Err(e) => {
            return Err(FormatError::Nbt(e));
        },
    };
    region.entities = entities;
    proof {
        assert(region.spec_bounding_box() == built.spec_bounding_box());
        assert(region.holds_indexed((0i32, 0i32, 0i32), size, views(palette@), indices@));
        assert(is_palette_of(
            compound_at(root@, "Palette"@).unwrap(),
            max as int,
            views(palette@),
        ));
        assert(entity_views(Seq::<Entity>::empty()) =~= Seq::<EntityView>::empty());
        assert(is_region_of_sponge(root@, region));
    }
    let mut schematic = UniversalSchematic::new(name);
    schematic.metadata.mc_version = mc_version;
    proof {
        assert(schematic.regions@ =~= Map::<Seq<char>, Region>::empty());
    }
    schematic.add_region(region);
    Ok(schematic)
}

/// Whether the structured value `root` has the two tags by which this
/// format is known: `BlockData` and `Palette`.
pub fn is_schematic(root: &NbtMap) -> (r: bool)
    ensures
        r == (root@.contains_key("BlockData"@) && root@.contains_key("Palette"@)),
{
    root.contains_key("BlockData") && root.contains_key("Palette")
}

impl UniversalSchematic {
    /// The structured value of this schematic in the container format
    /// with one palette.
    pub fn to_schematic(&self) -> (r: NbtMap)
        requires
            self.wf(),
            self.regions.entries.len() > 0,
            ({
                let b = union_of(self.regions.regions(), self.regions.entries.len() as nat);
                &&& b.width() <= MAX_DIMENSION
                &&& b.height() <= MAX_DIMENSION
                &&& b.length() <= MAX_DIMENSION
                &&& b.small() || b.spec_volume() <= usize::MAX
            }),
        ensures
            exists|merged: Region| #[trigger]
                is_merged_region(*self, merged) && r@ == sponge_nbt(*self, merged),
    {
        to_schematic(self)
    }

    /// The schematic that a structured value of the container format
    /// with one palette describes.
    pub fn from_schematic(root: &NbtMap) -> (r: Result<Self, FormatError>)
        ensures
            match r {
                Ok(schematic) => is_schematic_of_sponge(root@, schematic),
                Err(e) => sponge_fails_with(root@, e),
            },
    {
        from_schematic(root)
    }
}

} // verus!
