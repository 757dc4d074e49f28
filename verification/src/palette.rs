//! Palettes: ordered, append-only tables of distinct block states.
//!
//! A palette is modelled as the sequence of the values of its entries. The
//! only way to add an entry is [`get_or_insert`], which hands out the index
//! of an equal entry when there is one and appends otherwise, so indices
//! that were handed out stay valid.

use crate::block_state::{air_view, block_state_nbt, block_state_of_nbt, BlockState, BlockStateView};
use crate::error::NbtError;
use crate::utils::nbt::{compound_at, lemma_list_view, list_view, NbtMap, NbtValue, NbtView};
use vstd::prelude::*;

verus! {

/// The values of the entries of a palette, in order.
pub open spec fn views(entries: Seq<BlockState>) -> Seq<BlockStateView> {
    entries.map_values(|b: BlockState| b@)
}

/// The least index at which `v` stands in `p`, or the length of `p` when
/// `v` does not occur in it.
pub open spec fn index_in(p: Seq<BlockStateView>, v: BlockStateView) -> int
    decreases p.len(),
{
    if p.len() == 0 {
        0
    } else if p[0] == v {
        0
    } else {
        1 + index_in(p.drop_first(), v)
    }
}

/// No value occurs twice in `p`.
pub open spec fn deduplicated(p: Seq<BlockStateView>) -> bool {
    forall|i: int, j: int| 0 <= i < j < p.len() ==> p[i] != p[j]
}

/// What `get_or_insert` leaves behind: `p` itself when `v` occurs in it,
/// and `p` with `v` appended otherwise.
pub open spec fn inserted(p: Seq<BlockStateView>, v: BlockStateView) -> Seq<BlockStateView> {
    if index_in(p, v) < p.len() {
        p
    } else {
        p.push(v)
    }
}

/// `index_in` is the first index that holds `v`.
pub proof fn lemma_index_in(p: Seq<BlockStateView>, v: BlockStateView)
    ensures
        0 <= index_in(p, v) <= p.len(),
        index_in(p, v) < p.len() ==> p[index_in(p, v)] == v,
        forall|j: int| 0 <= j < index_in(p, v) ==> p[j] != v,
    decreases p.len(),
{
    if p.len() > 0 && p[0] != v {
        let q = p.drop_first();
        lemma_index_in(q, v);
        assert forall|j: int| 0 <= j < index_in(p, v) implies p[j] != v by {
            if j > 0 {
                assert(p[j] == q[j - 1]);
            }
        }
    }
}

/// An index that holds `v` and is preceded by no other is `index_in`.
pub proof fn lemma_index_in_is(p: Seq<BlockStateView>, v: BlockStateView, i: int)
    requires
        0 <= i <= p.len(),
        i < p.len() ==> p[i] == v,
        forall|j: int| 0 <= j < i ==> p[j] != v,
    ensures
        index_in(p, v) == i,
{
    lemma_index_in(p, v);
}

/// Inserting the same value twice gives the same index, and the second
/// insertion changes nothing.
pub proof fn lemma_insert_idempotent(p: Seq<BlockStateView>, v: BlockStateView)
    ensures
        index_in(inserted(p, v), v) == index_in(p, v),
        inserted(inserted(p, v), v) == inserted(p, v),
{
    lemma_index_in(p, v);
    lemma_index_in_is(inserted(p, v), v, index_in(p, v));
}

/// Inserting a value never moves an entry: earlier indices keep their
/// values, so an index handed out before stays valid.
pub proof fn lemma_insert_keeps_entries(p: Seq<BlockStateView>, v: BlockStateView)
    ensures
        p.len() <= inserted(p, v).len() <= p.len() + 1,
        forall|i: int| 0 <= i < p.len() ==> inserted(p, v)[i] == p[i],
        index_in(p, v) < inserted(p, v).len(),
        inserted(p, v)[index_in(p, v)] == v,
{
    lemma_index_in(p, v);
}

/// Two different values get two different indices.
pub proof fn lemma_insert_distinct(p: Seq<BlockStateView>, v: BlockStateView, w: BlockStateView)
    requires
        v != w,
    ensures
        index_in(inserted(p, v), w) != index_in(p, v),
{
    lemma_index_in(p, v);
    lemma_index_in(inserted(p, v), w);
}

/// Inserting into a palette without repetition leaves one without
/// repetition.
pub proof fn lemma_insert_deduplicated(p: Seq<BlockStateView>, v: BlockStateView)
    requires
        deduplicated(p),
    ensures
        deduplicated(inserted(p, v)),
{
    lemma_index_in(p, v);
}

/// In a palette without repetition, a value stands at one index only.
pub proof fn lemma_deduplicated_index(p: Seq<BlockStateView>, i: int)
    requires
        deduplicated(p),
        0 <= i < p.len(),
    ensures
        index_in(p, p[i]) == i,
{
    lemma_index_in_is(p, p[i], i);
}

/// Whether no entry of `entries` equals an earlier one.
pub fn is_deduplicated(entries: &Vec<BlockState>) -> (r: bool)
    ensures
        r == deduplicated(views(entries@)),
{
    let mut j: usize = 0;
    while j < entries.len()
        invariant
            j <= entries.len(),
            forall|a: int, b: int| 0 <= a < b < j ==> views(entries@)[a] != views(entries@)[b],
        decreases entries.len() - j,
    {
        let mut i: usize = 0;
        while i < j
            invariant
                i <= j,
                j < entries.len(),
                forall|a: int| 0 <= a < i ==> views(entries@)[a] != views(entries@)[j as int],
            decreases j - i,
        {
            if entries[i] == entries[j] {
                proof {
                    assert(views(entries@)[i as int] == views(entries@)[j as int]);
                }
                return false;
            }
            i += 1;
        }
        j += 1;
    }
    true
}

/// The first index of `entries` whose block state equals `block`.
pub fn position(entries: &Vec<BlockState>, block: &BlockState) -> (r: Option<usize>)
    ensures
        match r {
            Some(i) => i == index_in(views(entries@), block@) && i < entries.len(),
            None => index_in(views(entries@), block@) == entries.len(),
        },
{
    let mut i: usize = 0;
    while i < entries.len()
        invariant
            i <= entries.len(),
            forall|j: int| 0 <= j < i ==> views(entries@)[j] != block@,
        decreases entries.len() - i,
    {
        if entries[i] == *block {
            proof {
                lemma_index_in_is(views(entries@), block@, i as int);
            }
            return Some(i);
        }
        i += 1;
    }
    proof {
        lemma_index_in_is(views(entries@), block@, entries.len() as int);
    }
    None
}

/// The index of `block` in `entries`, appending it first when no equal
/// entry is there yet.
pub fn get_or_insert(entries: &mut Vec<BlockState>, block: BlockState) -> (r: usize)
    ensures
        r == index_in(views(old(entries)@), block@),
        views(final(entries)@) == inserted(views(old(entries)@), block@),
        r < final(entries).len(),
        final(entries)[r as int]@ == block@,
        final(entries).len() >= old(entries).len(),
        forall|i: int| 0 <= i < old(entries).len() ==> final(entries)[i] == old(entries)[i],
{
    proof {
        lemma_index_in(views(entries@), block@);
    }
    match position(entries, &block) {
        Some(i) => i,
        None => {
            let n = entries.len();
            proof {
                assert(views(entries@.push(block)) =~= views(entries@).push(block@));
            }
            entries.push(block);
            n
        },
    }
}

/// A palette of its own: starts with the empty block at index 0 and only
/// grows through [`GlobalPalette::get_or_insert`].
#[derive(Debug)]
pub struct GlobalPalette {
    blocks: Vec<BlockState>,
}

impl View for GlobalPalette {
    type V = Seq<BlockStateView>;

    closed spec fn view(&self) -> Seq<BlockStateView> {
        views(self.blocks@)
    }
}

impl GlobalPalette {
    #[verifier::type_invariant]
    spec fn well_formed(&self) -> bool {
        &&& self.blocks.len() >= 1
        &&& self.blocks[0]@ == air_view()
        &&& deduplicated(views(self.blocks@))
    }

    /// A palette that holds the empty block alone.
    pub fn new() -> (r: Self)
        ensures
            r@ == seq![air_view()],
    {
        let mut blocks: Vec<BlockState> = Vec::new();
        blocks.push(BlockState::new("minecraft:air".to_string()));
        proof {
            assert(views(blocks@) =~= seq![air_view()]);
        }
        GlobalPalette { blocks }
    }

    /// The index of `block`, appending it first when it is new.
    pub fn get_or_insert(&mut self, block: BlockState) -> (r: usize)
        ensures
            r == index_in(old(self)@, block@),
            final(self)@ == inserted(old(self)@, block@),
            r < final(self)@.len(),
            final(self)@[r as int] == block@,
    {
        proof {
            use_type_invariant(&*self);
            lemma_insert_deduplicated(self@, block@);
            lemma_insert_keeps_entries(self@, block@);
        }
        let mut blocks: Vec<BlockState> = Vec::new();
        blocks.push(BlockState::new("minecraft:air".to_string()));
        proof {
            assert(views(blocks@) =~= seq![air_view()]);
        }
        core::mem::swap(&mut self.blocks, &mut blocks);
        let r = get_or_insert(&mut blocks, block);
        self.blocks = blocks;
        r
    }

    /// The entry at `index`, if there is one.
    pub fn get(&self, index: usize) -> (r: Option<&BlockState>)
        ensures
            match r {
                Some(b) => index < self@.len() && b@ == self@[index as int],
                None => index >= self@.len(),
            },
    {
        if index < self.blocks.len() {
            Some(&self.blocks[index])
        } else {
            None
        }
    }

    /// The number of entries.
    pub fn len(&self) -> (r: usize)
        ensures
            r == self@.len(),
            r >= 1,
            self@[0] == air_view(),
            deduplicated(self@),
    {
        proof {
            use_type_invariant(self);
        }
        self.blocks.len()
    }
}

impl Clone for GlobalPalette {
    fn clone(&self) -> (r: Self)
        ensures
            r@ == self@,
    {
        proof {
            use_type_invariant(self);
        }
        let blocks = clone_entries(&self.blocks);
        GlobalPalette { blocks }
    }
}

impl PartialEq for GlobalPalette {
    /// Two palettes are equal when they hold the same block states at the
    /// same indices.
    fn eq(&self, other: &Self) -> (r: bool) {
        if self.blocks.len() != other.blocks.len() {
            proof {
                assert(views(self.blocks@).len() != views(other.blocks@).len());
            }
            return false;
        }
        let mut i: usize = 0;
        while i < self.blocks.len()
            invariant
                i <= self.blocks.len(),
                self.blocks.len() == other.blocks.len(),
                forall|j: int| 0 <= j < i ==> self.blocks[j]@ == other.blocks[j]@,
            decreases self.blocks.len() - i,
        {
            if !(self.blocks[i] == other.blocks[i]) {
                proof {
                    assert(views(self.blocks@)[i as int] != views(other.blocks@)[i as int]);
                }
                return false;
            }
            i += 1;
        }
        proof {
            assert(views(self.blocks@) =~= views(other.blocks@));
        }
        true
    }
}

impl vstd::std_specs::cmp::PartialEqSpecImpl for GlobalPalette {
    open spec fn obeys_eq_spec() -> bool {
        true
    }

    open spec fn eq_spec(&self, other: &Self) -> bool {
        self@ == other@
    }
}

/// A copy of the entries of a palette.
pub fn clone_entries(entries: &Vec<BlockState>) -> (r: Vec<BlockState>)
    ensures
        views(r@) == views(entries@),
        r.len() == entries.len(),
        forall|i: int| 0 <= i < entries.len() ==> (#[trigger] r[i])@ == entries[i]@,
{
    let mut copy: Vec<BlockState> = Vec::new();
    let mut i: usize = 0;
    while i < entries.len()
        invariant
            i <= entries.len(),
            copy.len() == i,
            forall|j: int| 0 <= j < i ==> (#[trigger] copy[j])@ == entries[j]@,
        decreases entries.len() - i,
    {
        copy.push(entries[i].clone());
        i += 1;
    }
    proof {
        assert(views(copy@) =~= views(entries@));
    }
    copy
}

/// The structured values of the entries of a palette, in order.
pub open spec fn palette_nbt(palette: Seq<BlockStateView>) -> Seq<NbtView> {
    Seq::new(palette.len(), |i: int| block_state_nbt(palette[i]))
}

/// The structured values of the entries of a palette, in order.
pub fn palette_to_nbt(palette: &Vec<BlockState>) -> (r: Vec<NbtValue>)
    ensures
        list_view(r@) == palette_nbt(views(palette@)),
{
    let mut list: Vec<NbtValue> = Vec::new();
    let mut i: usize = 0;
    while i < palette.len()
        invariant
            i <= palette.len(),
            list.len() == i,
            forall|j: int| 0 <= j < i ==> (#[trigger] list[j])@ == block_state_nbt(palette[j]@),
        decreases palette.len() - i,
    {
        list.push(palette[i].to_nbt());
        i += 1;
    }
    proof {
        lemma_list_view(list@);
        assert(list_view(list@) =~= palette_nbt(views(palette@)));
    }
    list
}

/// The palette that a list of tags describes: every tag must be a
/// compound that describes a block state.
pub open spec fn palette_of_nbt(list: Seq<NbtView>) -> Option<Seq<BlockStateView>> {
    if forall|i: int|
        0 <= i < list.len() ==> (#[trigger] list[i]) is Compound && block_state_of_nbt(
            list[i]->Compound_0,
        ) is Ok {
        Some(Seq::new(list.len(), |i: int| block_state_of_nbt(list[i]->Compound_0)->Ok_0))
    } else {
        None
    }
}

/// The palette that `list` describes, or nothing when one of its tags
/// does not describe a block state.
pub fn read_palette(list: &Vec<NbtValue>) -> (r: Option<Vec<BlockState>>)
    ensures
        match r {
            Some(palette) => palette_of_nbt(list_view(list@)) == Some(views(palette@)),
            None => palette_of_nbt(list_view(list@)).is_none(),
        },
{
    let mut palette: Vec<BlockState> = Vec::new();
    let mut i: usize = 0;
    proof {
        lemma_list_view(list@);
    }
    while i < list.len()
        invariant
            i <= list.len(),
            palette.len() == i,
            list_view(list@).len() == list.len(),
            forall|j: int| 0 <= j < list.len() ==> (#[trigger] list_view(list@)[j]) == list[j]@,
            forall|j: int|
                0 <= j < i ==> (#[trigger] list_view(list@)[j]) is Compound && block_state_of_nbt(
                    list_view(list@)[j]->Compound_0,
                ) == Ok::<BlockStateView, NbtError>(palette[j]@),
        decreases list.len() - i,
    {
        let compound = match list[i].as_compound() {
            Some(c) => c,
            None => {
                proof {
                    assert(!(list_view(list@)[i as int] is Compound));
                }
                return None;
            },
        };
        match BlockState::from_nbt(compound) {
            Ok(block) => {
                palette.push(block);
            },
            Err(_) => {
                proof {
                    assert(list_view(list@)[i as int] == list[i as int]@);
                }
                return None;
            },
        }
        i += 1;
    }
    proof {
        assert(views(palette@) =~= palette_of_nbt(list_view(list@)).unwrap());
    }
    Some(palette)
}

/// The names of the entries of a palette as string tags, in order.
pub open spec fn name_tags(palette: Seq<BlockStateView>) -> Seq<NbtView> {
    Seq::new(palette.len(), |i: int| NbtView::String(palette[i].name))
}

/// The compound that binds the name of each entry of a palette to the
/// index of the entry; of two entries with the same name the later one
/// counts.
pub open spec fn name_ids(palette: Seq<BlockStateView>) -> Map<Seq<char>, NbtView>
    decreases palette.len(),
{
    if palette.len() == 0 {
        Map::empty()
    } else {
        name_ids(palette.drop_last()).insert(
            palette.last().name,
            NbtView::Int((palette.len() - 1) as i32),
        )
    }
}

/// The block states without properties whose names are the strings among
/// `tags`, in order.
pub open spec fn named_blocks(tags: Seq<NbtView>) -> Seq<BlockStateView> {
    tags.filter_map(
        |tag: NbtView|
            if tag is String {
                Some(BlockStateView { name: tag->String_0, properties: Map::empty() })
            } else {
                None
            },
    )
}

/// What is left when the entries of `incoming` are inserted into
/// `palette` one after another.
pub open spec fn inserted_all(palette: Seq<BlockStateView>, incoming: Seq<BlockStateView>) -> Seq<
    BlockStateView,
>
    decreases incoming.len(),
{
    if incoming.len() == 0 {
        palette
    } else {
        inserted(inserted_all(palette, incoming.drop_last()), incoming.last())
    }
}

impl GlobalPalette {
    /// The structured value of the palette: the names of its entries
    /// under `Blocks`, and the index of each name under `BlockToIndex`.
    pub fn to_nbt(&self) -> (r: NbtValue)
        ensures
            r@ == NbtView::Compound(
                Map::<Seq<char>, NbtView>::empty().insert(
                    "Blocks"@,
                    NbtView::List(name_tags(self@)),
                ).insert("BlockToIndex"@, NbtView::Compound(name_ids(self@))),
            ),
    {
        let mut names: Vec<NbtValue> = Vec::new();
        let mut ids = NbtMap::new();
        let mut i: usize = 0;
        let ghost entries = self@;
        proof {
            assert(entries.take(0) =~= Seq::<BlockStateView>::empty());
        }
        while i < self.blocks.len()
            invariant
                i <= self.blocks.len(),
                entries == self@,
                names.len() == i,
                forall|j: int| 0 <= j < i ==> (#[trigger] names[j])@ == NbtView::String(
                    entries[j].name,
                ),
                ids@ == name_ids(entries.take(i as int)),
            decreases self.blocks.len() - i,
        {
            proof {
                assert(entries.take(i as int + 1).drop_last() =~= entries.take(i as int));
                assert(entries.take(i as int + 1).last() == entries[i as int]);
                assert(entries[i as int] == self.blocks[i as int]@);
            }
            names.push(NbtValue::String(self.blocks[i].name.clone()));
            ids.insert(
                self.blocks[i].name.clone(),
                NbtValue::Int(#[verifier::truncate] (i as i32)),
            );
            i += 1;
        }
        proof {
            assert(entries.take(self.blocks.len() as int) =~= entries);
            lemma_list_view(names@);
            assert(list_view(names@) =~= name_tags(entries));
        }
        let mut tag = NbtMap::new();
        tag.put("Blocks", NbtValue::List(names));
        tag.put("BlockToIndex", NbtValue::Compound(ids));
        NbtValue::Compound(tag)
    }

    /// The palette that `nbt` describes: the empty block, followed by the
    /// blocks that the strings under `Blocks` name, each once and without
    /// properties. The indices under `BlockToIndex` must be there and are
    /// not looked at.
    pub fn from_nbt(nbt: &NbtMap) -> (r: Result<Self, NbtError>)
        ensures
            match r {
                Ok(palette) => nbt@.contains_key("Blocks"@) && nbt@["Blocks"@] is List
                    && compound_at(nbt@, "BlockToIndex"@).is_some() && palette@ == inserted_all(
                    seq![air_view()],
                    named_blocks(nbt@["Blocks"@]->List_0),
                ),
                Err(e) => if !nbt@.contains_key("Blocks"@) {
                    e == NbtError::Blocks
                } else if !(nbt@["Blocks"@] is List) {
                    e == NbtError::PaletteBlocks
                } else {
                    e == NbtError::BlockToIndex && compound_at(nbt@, "BlockToIndex"@).is_none()
                },
            },
    {
        let list = match nbt.get("Blocks") {
            Some(tag) => match tag.as_list() {
                Some(list) => list,
                None => {
                    return Err(NbtError::PaletteBlocks);
                },
            },
            None => {
                return Err(NbtError::Blocks);
            },
        };
        let ghost tags = list_view(list@);
        let ghost pick = |tag: NbtView|
            if tag is String {
                Some(BlockStateView { name: tag->String_0, properties: Map::empty() })
            } else {
                None
            };
        let mut blocks = crate::region::air_palette();
        let mut i: usize = 0;
        proof {
            lemma_list_view(list@);
            assert(tags.take(0) =~= Seq::<NbtView>::empty());
        }
        while i < list.len()
            invariant
                i <= list.len(),
                tags == list_view(list@),
                tags.len() == list.len(),
                forall|j: int| 0 <= j < list.len() ==> (#[trigger] tags[j]) == list[j]@,
                pick == |tag: NbtView|
                    if tag is String {
                        Some(BlockStateView { name: tag->String_0, properties: Map::empty() })
                    } else {
                        None
                    },
                blocks.len() >= 1,
                blocks[0]@ == air_view(),
                deduplicated(views(blocks@)),
                views(blocks@) == inserted_all(seq![air_view()], tags.take(i as int).filter_map(pick)),
            decreases list.len() - i,
        {
            proof {
                assert(tags.take(i as int + 1).drop_last() =~= tags.take(i as int));
                assert(tags.take(i as int + 1).last() == tags[i as int]);
            }
            if let Some(name) = list[i].as_string() {
                let block = BlockState::new(name.clone());
                proof {
                    lemma_insert_deduplicated(views(blocks@), block@);
                    let earlier = tags.take(i as int).filter_map(pick);
                    assert((earlier + seq![block@]).drop_last() =~= earlier);
                }
                get_or_insert(&mut blocks, block);
            }
            i += 1;
        }
        proof {
            assert(tags.take(list.len() as int) =~= tags);
        }
        if nbt.get_compound("BlockToIndex").is_none() {
            return Err(NbtError::BlockToIndex);
        }
        Ok(GlobalPalette { blocks })
    }
}

} // verus!
