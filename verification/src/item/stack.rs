//! Stacks of one kind of item.

use crate::utils::nbt::{NbtMap, NbtValue, NbtView};
use vstd::prelude::*;

verus! {

/// A number of items of one kind, with the slot they lie in, if any.
#[derive(Debug)]
pub struct ItemStack {
    pub id: String,
    pub count: u8,
    pub slot: Option<u8>,
}

impl ItemStack {
    /// A stack of `count` items of the kind `id`, in no slot.
    pub fn new(id: &str, count: u8) -> (r: Self)
        ensures
            r.id@ == id@,
            r.count == count,
            r.slot.is_none(),
    {
        ItemStack { id: id.to_string(), count, slot: None }
    }

    /// The same stack, lying in `slot`.
    pub fn with_slot(self, slot: u8) -> (r: Self)
        ensures
            r.id == self.id,
            r.count == self.count,
            r.slot == Some(slot),
    {
        ItemStack { id: self.id, count: self.count, slot: Some(slot) }
    }
}

/// `m` with `Slot` bound to the byte `slot`, when there is one.
pub open spec fn with_slot_tag(m: Map<Seq<char>, NbtView>, slot: Option<u8>) -> Map<Seq<char>, NbtView> {
    match slot {
        Some(s) => m.insert("Slot"@, NbtView::Byte(s as i8)),
        None => m,
    }
}

/// The structured value of a stack: its kind under `id`, its count under
/// `Count` and, when it lies in one, its slot under `Slot`; the two
/// numbers as signed bytes with the same bits.
pub open spec fn item_nbt(item: ItemStack) -> NbtView {
    NbtView::Compound(
        with_slot_tag(
            Map::<Seq<char>, NbtView>::empty().insert("id"@, NbtView::String(item.id@)).insert(
                "Count"@,
                NbtView::Byte(item.count as i8),
            ),
            item.slot,
        ),
    )
}

impl ItemStack {
    /// The structured value of the stack.
    pub fn to_nbt(&self) -> (r: NbtValue)
        ensures
            r@ == item_nbt(*self),
    {
        let mut compound = NbtMap::new();
        compound.put("id", NbtValue::String(self.id.clone()));
        compound.put("Count", NbtValue::Byte(#[verifier::truncate] (self.count as i8)));
        if let Some(slot) = self.slot {
            compound.put("Slot", NbtValue::Byte(#[verifier::truncate] (slot as i8)));
        }
        NbtValue::Compound(compound)
    }
}

impl Clone for ItemStack {
    fn clone(&self) -> (r: Self)
        ensures
            r.id == self.id,
            r.count == self.count,
            r.slot == self.slot,
    {
        ItemStack { id: self.id.clone(), count: self.count, slot: self.slot }
    }
}

impl PartialEq for ItemStack {
    fn eq(&self, other: &Self) -> (r: bool) {
        self.id == other.id && self.count == other.count && match (self.slot, other.slot) {
            (Some(a), Some(b)) => a == b,
            (None, None) => true,
            _ => false,
        }
    }
}

impl vstd::std_specs::cmp::PartialEqSpecImpl for ItemStack {
    open spec fn obeys_eq_spec() -> bool {
        true
    }

    open spec fn eq_spec(&self, other: &Self) -> bool {
        self.id@ == other.id@ && self.count == other.count && self.slot == other.slot
    }
}

} // verus!
