//! Block entities: the data that some blocks carry besides their state,
//! and the map that holds them by position.

pub mod generic;

use crate::assoc::{
    distinct_keys,
    entries_to_map,
    has_key,
    lemma_entry_bound,
    lemma_map_len,
    lemma_push_entry,
    lemma_remove_entry,
    lemma_update_entry,
};
use crate::error::NbtError;
use crate::string_map::StringMap;
use crate::utils::nbt::{
    compound_at,
    lemma_list_view,
    string_at,
    strings_nbt,
    strings_of,
    NbtMap,
    NbtValue,
    NbtView,
};
use crate::text::{decimal, u64_to_string};
use vstd::prelude::*;

verus! {

/// The mathematical value of a block entity.
pub struct BlockEntityView {
    pub id: Seq<char>,
    pub position: (i32, i32, i32),
    pub nbt: Map<Seq<char>, Seq<char>>,
}

/// The text that stands for `count` items of the kind `item_id` in slot
/// `slot`: `{id:"item_id",Count:<count>b,Slot:<slot>b}`.
pub open spec fn item_text(item_id: Seq<char>, count: u8, slot: u8) -> Seq<char> {
    "{id:\""@ + item_id + "\",Count:"@ + decimal(count as nat) + "b,Slot:"@ + decimal(slot as nat)
        + "b}"@
}

/// The list text `items` with `item` added at its end. A list text is a
/// sequence of items between square brackets, separated by commas.
pub open spec fn with_item_added(items: Seq<char>, item: Seq<char>) -> Seq<char> {
    if items == "[]"@ {
        "["@ + item + "]"@
    } else {
        "["@ + items.subrange(1, items.len() - 1) + ","@ + item + "]"@
    }
}

/// The structured value of a block entity: its identifier under `id`,
/// its position under `Pos` as a list of three ints, and its data under
/// `NBT`.
pub open spec fn block_entity_nbt(e: BlockEntityView) -> NbtView {
    NbtView::Compound(
        Map::<Seq<char>, NbtView>::empty().insert("id"@, NbtView::String(e.id)).insert(
            "Pos"@,
            NbtView::List(
                seq![
                    NbtView::Int(e.position.0),
                    NbtView::Int(e.position.1),
                    NbtView::Int(e.position.2),
                ],
            ),
        ).insert("NBT"@, NbtView::Compound(strings_nbt(e.nbt))),
    )
}

/// The position that the tag under `Pos` gives: an array of three ints,
/// or a list of three tags that are ints.
pub open spec fn position_of_nbt(m: Map<Seq<char>, NbtView>) -> Result<(i32, i32, i32), NbtError> {
    if !m.contains_key("Pos"@) {
        Err(NbtError::PositionData)
    } else {
        match m["Pos"@] {
            NbtView::IntArray(a) => if a.len() == 3 {
                Ok((a[0], a[1], a[2]))
            } else {
                Err(NbtError::PositionData)
            },
            NbtView::List(l) => if l.len() != 3 {
                Err(NbtError::PositionData)
            } else if !(l[0] is Int) {
                Err(NbtError::PositionX)
            } else if !(l[1] is Int) {
                Err(NbtError::PositionY)
            } else if !(l[2] is Int) {
                Err(NbtError::PositionZ)
            } else {
                Ok((l[0]->Int_0, l[1]->Int_0, l[2]->Int_0))
            },
            _ => Err(NbtError::PositionData),
        }
    }
}

/// The block entity that a compound describes, or the first tag that is
/// missing or wrong: the string under `id`, the position under `Pos`,
/// and the strings of the compound under `NBT`.
pub open spec fn block_entity_of_nbt(m: Map<Seq<char>, NbtView>) -> Result<
    BlockEntityView,
    NbtError,
> {
    if string_at(m, "id"@).is_none() {
        Err(NbtError::BlockEntityId)
    } else if position_of_nbt(m) is Err {
        Err(position_of_nbt(m)->Err_0)
    } else if compound_at(m, "NBT"@).is_none() {
        Err(NbtError::BlockEntityData)
    } else {
        Ok(
            BlockEntityView {
                id: string_at(m, "id"@).unwrap(),
                position: position_of_nbt(m)->Ok_0,
                nbt: strings_of(compound_at(m, "NBT"@).unwrap()),
            },
        )
    }
}

/// The data attached to the block at `position`.
#[derive(Debug)]
pub struct BlockEntity {
    pub id: String,
    pub position: (i32, i32, i32),
    pub nbt: StringMap,
}

impl View for BlockEntity {
    type V = BlockEntityView;

    open spec fn view(&self) -> BlockEntityView {
        BlockEntityView { id: self.id@, position: self.position, nbt: self.nbt@ }
    }
}

impl BlockEntity {
    /// A block entity with the given identifier and position and no data.
    pub fn new(id: String, position: (i32, i32, i32)) -> (r: Self)
        ensures
            r.id == id,
            r.position == position,
            r@ == (BlockEntityView { id: id@, position, nbt: Map::empty() }),
    {
        BlockEntity { id, position, nbt: StringMap::new() }
    }

    /// The same block entity with `key` bound to `value` in its data.
    pub fn with_nbt_data(self, key: String, value: String) -> (r: Self)
        ensures
            r.id == self.id,
            r.position == self.position,
            r@.nbt == self@.nbt.insert(key@, value@),
    {
        let mut entity = self;
        entity.nbt.insert(key, value);
        entity
    }

    /// The same block entity with one more item in the list text bound to
    /// `Items`. The list starts as `[]` when nothing is bound to `Items`.
    pub fn with_item(self, slot: u8, item_id: &str, count: u8) -> (r: Self)
        requires
            self.nbt@.contains_key("Items"@) ==> self.nbt@["Items"@].len() >= 2,
        ensures
            r.id == self.id,
            r.position == self.position,
            r@.nbt == self@.nbt.insert(
                "Items"@,
                with_item_added(
                    if self.nbt@.contains_key("Items"@) {
                        self.nbt@["Items"@]
                    } else {
                        "[]"@
                    },
                    item_text(item_id@, count, slot),
                ),
            ),
    {
        let mut item = "{id:\"".to_string();
        item.append(item_id);
        item.append("\",Count:");
        item.append(u64_to_string(count as u64).as_str());
        item.append("b,Slot:");
        item.append(u64_to_string(slot as u64).as_str());
        item.append("b}");
        assert(item@ =~= item_text(item_id@, count, slot));
        let empty = "[]".to_string();
        let mut list = "[".to_string();
        match self.nbt.get("Items") {
            Some(items) => {
                if *items != empty {
                    let length = items.as_str().unicode_len();
                    list.append(items.as_str().substring_char(1, length - 1));
                    list.append(",");
                }
            },
            None => {},
        }
        list.append(item.as_str());
        list.append("]");
        proof {
            let before = if self.nbt@.contains_key("Items"@) {
                self.nbt@["Items"@]
            } else {
                "[]"@
            };
            assert(list@ =~= with_item_added(before, item@));
        }
        let mut entity = self;
        entity.nbt.insert("Items".to_string(), list);
        entity
    }

    /// The same block entity with `key` bound to `value` in its data.
    pub fn with_custom_data(self, key: &str, value: &str) -> (r: Self)
        ensures
            r.id == self.id,
            r.position == self.position,
            r@.nbt == self@.nbt.insert(key@, value@),
    {
        let mut entity = self;
        entity.nbt.insert(key.to_string(), value.to_string());
        entity
    }
}

/// The position that the tag under `Pos` of `nbt` gives.
pub fn read_position(nbt: &NbtMap) -> (r: Result<(i32, i32, i32), NbtError>)
    ensures
        r == position_of_nbt(nbt@),
{
    match nbt.get("Pos") {
        Some(NbtValue::IntArray(numbers)) => {
            if numbers.len() == 3 {
                Ok((numbers[0], numbers[1], numbers[2]))
            } else {
                Err(NbtError::PositionData)
            }
        },
        Some(NbtValue::List(list)) => {
            proof {
                lemma_list_view(list@);
            }
            if list.len() != 3 {
                return Err(NbtError::PositionData);
            }
            let x = match &list[0] {
                NbtValue::Int(x) => *x,
                _ => {
                    return Err(NbtError::PositionX);
                },
            };
            let y = match &list[1] {
                NbtValue::Int(y) => *y,
                _ => {
                    return Err(NbtError::PositionY);
                },
            };
            let z = match &list[2] {
                NbtValue::Int(z) => *z,
                _ => {
                    return Err(NbtError::PositionZ);
                },
            };
            Ok((x, y, z))
        },
        _ => Err(NbtError::PositionData),
    }
}

impl BlockEntity {
    /// The structured value of the block entity.
    pub fn to_nbt(&self) -> (r: NbtValue)
        ensures
            r@ == block_entity_nbt(self@),
    {
        let mut compound = NbtMap::new();
        compound.put("id", NbtValue::String(self.id.clone()));
        let mut position: Vec<NbtValue> = Vec::new();
        position.push(NbtValue::Int(self.position.0));
        position.push(NbtValue::Int(self.position.1));
        position.push(NbtValue::Int(self.position.2));
        proof {
            lemma_list_view(position@);
            assert(crate::utils::nbt::list_view(position@) =~= seq![
                NbtView::Int(self.position.0),
                NbtView::Int(self.position.1),
                NbtView::Int(self.position.2),
            ]);
        }
        compound.put("Pos", NbtValue::List(position));
        compound.put("NBT", NbtValue::Compound(NbtMap::from_string_map(&self.nbt)));
        NbtValue::Compound(compound)
    }

    /// The block entity that `nbt` describes.
    pub fn from_nbt(nbt: &NbtMap) -> (r: Result<Self, NbtError>)
        ensures
            match r {
                Ok(entity) => block_entity_of_nbt(nbt@) == Ok::<BlockEntityView, NbtError>(
                    entity@,
                ),
                Err(e) => block_entity_of_nbt(nbt@) == Err::<BlockEntityView, NbtError>(e),
            },
    {
        let id = match nbt.get_string("id") {
            Some(id) => id.clone(),
            None => {
                return Err(NbtError::BlockEntityId);
            },
        };
        let position = match read_position(nbt) {
            Ok(position) => position,
            Err(e) => {
                return Err(e);
            },
        };
        let data = match nbt.get_compound("NBT") {
            Some(data) => data.string_entries(),
            None => {
                return Err(NbtError::BlockEntityData);
            },
        };
        Ok(BlockEntity { id, position, nbt: data })
    }
}

impl Clone for BlockEntity {
    fn clone(&self) -> (r: Self)
        ensures
            r@ == self@,
            r.nbt.entries() == self.nbt.entries(),
    {
        BlockEntity { id: self.id.clone(), position: self.position, nbt: self.nbt.clone() }
    }
}

impl PartialEq for BlockEntity {
    /// Two block entities are equal when they have the same identifier, the
    /// same position and the same data.
    fn eq(&self, other: &Self) -> (r: bool) {
        self.id == other.id && self.position.0 == other.position.0 && self.position.1
            == other.position.1 && self.position.2 == other.position.2 && self.nbt == other.nbt
    }
}

impl vstd::std_specs::cmp::PartialEqSpecImpl for BlockEntity {
    open spec fn obeys_eq_spec() -> bool {
        true
    }

    open spec fn eq_spec(&self, other: &Self) -> bool {
        self@ == other@
    }
}

/// A pair of a position and the value of the block entity held there.
pub type PlacedEntity = ((i32, i32, i32), BlockEntityView);

/// The block entities of a region, each under the position it was stored
/// at. No position occurs twice; the entries keep the order in which their
/// positions were first used.
#[derive(Debug)]
pub struct BlockEntityMap {
    entries: Vec<((i32, i32, i32), BlockEntity)>,
}

impl View for BlockEntityMap {
    type V = Map<(i32, i32, i32), BlockEntityView>;

    open spec fn view(&self) -> Map<(i32, i32, i32), BlockEntityView> {
        entries_to_map(self.entries())
    }
}

impl BlockEntityMap {
    /// The entries of the map in insertion order.
    pub closed spec fn entries(&self) -> Seq<PlacedEntity> {
        self.entries@.map_values(|p: ((i32, i32, i32), BlockEntity)| (p.0, p.1@))
    }

    #[verifier::type_invariant]
    spec fn keys_are_distinct(&self) -> bool {
        distinct_keys(self.entries())
    }

    /// An empty map.
    pub fn new() -> (r: Self)
        ensures
            r.entries() == Seq::<PlacedEntity>::empty(),
            r@ == Map::<(i32, i32, i32), BlockEntityView>::empty(),
    {
        let r = BlockEntityMap { entries: Vec::new() };
        proof {
            assert(r.entries() =~= Seq::<PlacedEntity>::empty());
            assert(r@ =~= Map::<(i32, i32, i32), BlockEntityView>::empty());
        }
        r
    }

    /// The number of entries.
    pub fn len(&self) -> (r: usize)
        ensures
            r == self.entries().len(),
            self@.dom().finite(),
            r == self@.len(),
            distinct_keys(self.entries()),
    {
        proof {
            use_type_invariant(self);
            lemma_map_len(self.entries());
        }
        self.entries.len()
    }

    /// Whether the map has no entry.
    pub fn is_empty(&self) -> (r: bool)
        ensures
            r == (self.entries().len() == 0),
    {
        self.entries.len() == 0
    }

    /// The index of the entry stored at `key`, if there is one.
    fn position(&self, key: &(i32, i32, i32)) -> (r: Option<usize>)
        ensures
            match r {
                Some(i) => i < self.entries().len() && self.entries()[i as int].0 == *key,
                None => !has_key(self.entries(), *key),
            },
    {
        let mut i: usize = 0;
        while i < self.entries.len()
            invariant
                i <= self.entries.len(),
                forall|j: int| 0 <= j < i ==> (#[trigger] self.entries()[j]).0 != *key,
            decreases self.entries.len() - i,
        {
            let k = &self.entries[i].0;
            if k.0 == key.0 && k.1 == key.1 && k.2 == key.2 {
                return Some(i);
            }
            i += 1;
        }
        None
    }

    /// The position of the entry at `index`, in insertion order.
    pub fn key_at(&self, index: usize) -> (r: (i32, i32, i32))
        requires
            index < self.entries().len(),
        ensures
            r == self.entries()[index as int].0,
            self@.contains_key(r),
    {
        proof {
            use_type_invariant(self);
            lemma_entry_bound(self.entries(), index as int);
        }
        self.entries[index].0
    }

    /// The block entity of the entry at `index`, in insertion order.
    pub fn value_at(&self, index: usize) -> (r: &BlockEntity)
        requires
            index < self.entries().len(),
        ensures
            r@ == self.entries()[index as int].1,
            r@ == self@[self.entries()[index as int].0],
    {
        proof {
            use_type_invariant(self);
            lemma_entry_bound(self.entries(), index as int);
        }
        &self.entries[index].1
    }

    /// Whether a block entity is stored at `key`.
    pub fn contains_key(&self, key: &(i32, i32, i32)) -> (r: bool)
        ensures
            r == self@.contains_key(*key),
    {
        self.position(key).is_some()
    }

    /// The block entity stored at `key`, if there is one.
    pub fn get(&self, key: &(i32, i32, i32)) -> (r: Option<&BlockEntity>)
        ensures
            match r {
                Some(v) => self@.contains_key(*key) && v@ == self@[*key],
                None => !self@.contains_key(*key),
            },
    {
        match self.position(key) {
            Some(i) => {
                proof {
                    use_type_invariant(self);
                    lemma_entry_bound(self.entries(), i as int);
                }
                Some(&self.entries[i].1)
            },
            None => None,
        }
    }

    /// Stores `value` at `key` and returns what was stored there before,
    /// if anything. A position that was in use keeps its place in the
    /// order; a new one goes to the end.
    pub fn insert(&mut self, key: (i32, i32, i32), value: BlockEntity) -> (r: Option<BlockEntity>)
        ensures
            final(self)@ == old(self)@.insert(key, value@),
            match r {
                Some(v) => old(self)@.contains_key(key) && v@ == old(self)@[key] && exists|i: int|
                    0 <= i < old(self).entries().len() && (#[trigger] old(self).entries()[i]).0
                        == key && final(self).entries() == old(self).entries().update(
                        i,
                        (key, value@),
                    ),
                None => !old(self)@.contains_key(key) && final(self).entries() == old(
                    self,
                ).entries().push((key, value@)),
            },
    {
        proof {
            use_type_invariant(&*self);
        }
        let mut entries: Vec<((i32, i32, i32), BlockEntity)> = Vec::new();
        match self.position(&key) {
            Some(i) => {
                proof {
                    lemma_entry_bound(self.entries(), i as int);
                    lemma_update_entry(self.entries(), i as int, value@);
                    assert(self.entries@.update(i as int, (key, value)).map_values(
                        |p: ((i32, i32, i32), BlockEntity)| (p.0, p.1@),
                    ) =~= self.entries().update(i as int, (key, value@)));
                }
                core::mem::swap(&mut self.entries, &mut entries);
                let mut slot = (key, value);
                core::mem::swap(&mut entries[i], &mut slot);
                self.entries = entries;
                Some(slot.1)
            },
            None => {
                proof {
                    lemma_push_entry(self.entries(), key, value@);
                    assert(self.entries@.push((key, value)).map_values(
                        |p: ((i32, i32, i32), BlockEntity)| (p.0, p.1@),
                    ) =~= self.entries().push((key, value@)));
                }
                core::mem::swap(&mut self.entries, &mut entries);
                entries.push((key, value));
                self.entries = entries;
                None
            },
        }
    }

    /// Takes out the block entity stored at `key` and returns it, if there
    /// is one. The other entries keep their order.
    pub fn remove(&mut self, key: &(i32, i32, i32)) -> (r: Option<BlockEntity>)
        ensures
            final(self)@ == old(self)@.remove(*key),
            match r {
                Some(v) => old(self)@.contains_key(*key) && v@ == old(self)@[*key] && exists|i: int|
                    0 <= i < old(self).entries().len() && (#[trigger] old(self).entries()[i]).0
                        == *key && final(self).entries() == old(self).entries().remove(i),
                None => !old(self)@.contains_key(*key) && final(self).entries() == old(
                    self,
                ).entries(),
            },
    {
        proof {
            use_type_invariant(&*self);
        }
        match self.position(key) {
            Some(i) => {
                proof {
                    lemma_entry_bound(self.entries(), i as int);
                    lemma_remove_entry(self.entries(), i as int);
                    assert(self.entries@.remove(i as int).map_values(
                        |p: ((i32, i32, i32), BlockEntity)| (p.0, p.1@),
                    ) =~= self.entries().remove(i as int));
                }
                let mut entries: Vec<((i32, i32, i32), BlockEntity)> = Vec::new();
                core::mem::swap(&mut self.entries, &mut entries);
                let taken = entries.remove(i);
                self.entries = entries;
                Some(taken.1)
            },
            None => {
                proof {
                    assert(self@.remove(*key) =~= self@);
                }
                None
            },
        }
    }
}

impl Clone for BlockEntityMap {
    fn clone(&self) -> (r: Self)
        ensures
            r.entries() == self.entries(),
            r@ == self@,
    {
        proof {
            use_type_invariant(self);
        }
        let mut entries: Vec<((i32, i32, i32), BlockEntity)> = Vec::new();
        let mut i: usize = 0;
        while i < self.entries.len()
            invariant
                i <= self.entries.len(),
                entries.len() == i,
                forall|j: int|
                    0 <= j < i ==> (#[trigger] entries[j]).0 == self.entries[j].0 && entries[j].1@
                        == self.entries[j].1@,
            decreases self.entries.len() - i,
        {
            let k = self.entries[i].0;
            let v = self.entries[i].1.clone();
            entries.push((k, v));
            i += 1;
        }
        proof {
            assert(entries@.map_values(|p: ((i32, i32, i32), BlockEntity)| (p.0, p.1@))
                =~= self.entries());
        }
        BlockEntityMap { entries }
    }
}

/// The block entity that a tag describes, if it describes one.
pub open spec fn block_entity_of_tag(tag: NbtView) -> Option<BlockEntityView> {
    if tag is Compound && block_entity_of_nbt(tag->Compound_0) is Ok {
        Some(block_entity_of_nbt(tag->Compound_0)->Ok_0)
    } else {
        None
    }
}

} // verus!
