//! Block entities that keep their data as a tag tree.

use crate::item::stack::{item_nbt, ItemStack};
use crate::utils::nbt::{
    clone_list,
    int_array_at,
    lemma_list_view,
    list_view,
    string_at,
    NbtMap,
    NbtValue,
    NbtView,
};
use vstd::prelude::*;

verus! {

/// The data attached to the block at `position`, as a compound of tags.
#[derive(Debug)]
pub struct BlockEntity {
    pub nbt: NbtMap,
    pub id: String,
    pub position: (i32, i32, i32),
}

/// The tags of the list under `Items`, or none when no list is there.
pub open spec fn items_of(m: Map<Seq<char>, NbtView>) -> Seq<NbtView> {
    if m.contains_key("Items"@) && m["Items"@] is List {
        m["Items"@]->List_0
    } else {
        Seq::empty()
    }
}

/// The identifier that a compound gives: the string under `Id`, or
/// `unknown`.
pub open spec fn id_of(m: Map<Seq<char>, NbtView>) -> Seq<char> {
    match string_at(m, "Id"@) {
        Some(id) => id,
        None => "unknown"@,
    }
}

/// The position that a compound gives: the first three ints of the array
/// under `Pos`, or the origin when there is no such array or it is
/// shorter.
pub open spec fn position_of(m: Map<Seq<char>, NbtView>) -> (i32, i32, i32) {
    match int_array_at(m, "Pos"@) {
        Some(a) => if a.len() >= 3 {
            (a[0], a[1], a[2])
        } else {
            (0i32, 0i32, 0i32)
        },
        None => (0i32, 0i32, 0i32),
    }
}

impl BlockEntity {
    /// A block entity with the given identifier and position and no data.
    pub fn new(id: String, position: (i32, i32, i32)) -> (r: Self)
        ensures
            r.id == id,
            r.position == position,
            r.nbt@ == Map::<Seq<char>, NbtView>::empty(),
    {
        BlockEntity { nbt: NbtMap::new(), id, position }
    }

    /// The same block entity with `key` bound to `value` in its data.
    pub fn with_nbt_data(self, key: String, value: NbtValue) -> (r: Self)
        ensures
            r.id == self.id,
            r.position == self.position,
            r.nbt@ == self.nbt@.insert(key@, value@),
    {
        let mut entity = self;
        entity.nbt.insert(key, value);
        entity
    }

    /// Adds the structured value of `item` to the end of the list under
    /// `Items`; the list starts empty when no list is there.
    pub fn add_item_stack(&mut self, item: ItemStack)
        ensures
            final(self).id == old(self).id,
            final(self).position == old(self).position,
            final(self).nbt@ == old(self).nbt@.insert(
                "Items"@,
                NbtView::List(items_of(old(self).nbt@).push(item_nbt(item))),
            ),
    {
        let mut items = match self.nbt.get("Items") {
            Some(NbtValue::List(items)) => clone_list(items),
            _ => Vec::new(),
        };
        proof {
            lemma_list_view(items@);
            assert(list_view(items@) =~= items_of(self.nbt@));
        }
        let tag = item.to_nbt();
        let ghost value = tag@;
        proof {
            assert(list_view(items@.push(tag)).drop_last() =~= list_view(items@)) by {
                assert(items@.push(tag).drop_last() =~= items@);
            }
        }
        items.push(tag);
        self.nbt.insert("Items".to_string(), NbtValue::List(items));
    }

    /// A chest at `position` that holds `items`, in their order.
    pub fn create_chest(position: (i32, i32, i32), items: Vec<ItemStack>) -> (r: BlockEntity)
        ensures
            r.id@ == "minecraft:chest"@,
            r.position == position,
            items.len() == 0 ==> r.nbt@ == Map::<Seq<char>, NbtView>::empty(),
            items.len() > 0 ==> r.nbt@ == Map::<Seq<char>, NbtView>::empty().insert(
                "Items"@,
                NbtView::List(Seq::new(items.len() as nat, |i: int| item_nbt(items[i]))),
            ),
    {
        let mut chest = BlockEntity::new("minecraft:chest".to_string(), position);
        let ghost all = items@;
        let total = items.len();
        let mut rest = items;
        let mut k: usize = 0;
        while rest.len() > 0
            invariant
                k + rest.len() == total,
                total == all.len(),
                rest@ == all.subrange(k as int, total as int),
                chest.id@ == "minecraft:chest"@,
                chest.position == position,
                k == 0 ==> chest.nbt@ == Map::<Seq<char>, NbtView>::empty(),
                k > 0 ==> chest.nbt@ == Map::<Seq<char>, NbtView>::empty().insert(
                    "Items"@,
                    NbtView::List(Seq::new(k as nat, |i: int| item_nbt(all[i]))),
                ),
            decreases rest.len(),
        {
            let item = rest.remove(0);
            proof {
                assert(item == all[k as int]);
                assert(rest@ =~= all.subrange(k as int + 1, total as int));
                assert(items_of(chest.nbt@).push(item_nbt(item)) =~= Seq::new(
                    (k + 1) as nat,
                    |i: int| item_nbt(all[i]),
                ));
            }
            let ghost before = chest.nbt@;
            chest.add_item_stack(item);
            proof {
                assert(chest.nbt@ =~= Map::<Seq<char>, NbtView>::empty().insert(
                    "Items"@,
                    NbtView::List(Seq::new((k + 1) as nat, |i: int| item_nbt(all[i]))),
                ));
            }
            k += 1;
        }
        chest
    }

    /// The block entity that `nbt` describes: a copy of `nbt` as its data,
    /// with the identifier and the position that `nbt` gives.
    pub fn from_nbt(nbt: &NbtMap) -> (r: Self)
        ensures
            r.nbt@ == nbt@,
            r.id@ == id_of(nbt@),
            r.position == position_of(nbt@),
    {
        let id = match nbt.get_string("Id") {
            Some(id) => id.clone(),
            None => "unknown".to_string(),
        };
        let position = match nbt.get_int_array("Pos") {
            Some(numbers) => if numbers.len() >= 3 {
                (numbers[0], numbers[1], numbers[2])
            } else {
                (0, 0, 0)
            },
            None => (0, 0, 0),
        };
        BlockEntity { nbt: nbt.clone(), id, position }
    }

    /// The structured value of the block entity: a copy of its data.
    pub fn to_nbt(&self) -> (r: NbtMap)
        ensures
            r@ == self.nbt@,
    {
        self.nbt.clone()
    }
}

impl Clone for BlockEntity {
    fn clone(&self) -> (r: Self)
        ensures
            r.id == self.id,
            r.position == self.position,
            r.nbt@ == self.nbt@,
    {
        BlockEntity { nbt: self.nbt.clone(), id: self.id.clone(), position: self.position }
    }
}

impl PartialEq for BlockEntity {
    /// Two block entities are equal when they have the same identifier, the
    /// same position and compounds of the same value.
    fn eq(&self, other: &Self) -> (r: bool) {
        self.id == other.id && self.position.0 == other.position.0 && self.position.1
            == other.position.1 && self.position.2 == other.position.2 && self.nbt == other.nbt
    }
}

impl vstd::std_specs::cmp::PartialEqSpecImpl for BlockEntity {
    open spec fn obeys_eq_spec() -> bool {
        true
    }

    open spec fn eq_spec(&self, other: &Self) -> bool {
        &&& self.id@ == other.id@
        &&& self.position == other.position
        &&& self.nbt@ == other.nbt@
    }
}

} // verus!
