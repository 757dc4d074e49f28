//! Tag trees: the structured values that the container formats are made
//! of.
//!
//! A tag is a number, an array of numbers, a string, a list of tags, or a
//! compound that binds names to tags. The mathematical value of a compound
//! is a map: the order of its entries does not count, and of two entries
//! with the same name the later one counts.

use crate::assoc::{distinct_keys, entries_to_map, has_key, lemma_entry_bound};
use crate::string_map::StringMap;
use vstd::prelude::*;

verus! {

/// The mathematical value of a tag.
pub enum NbtView {
    Byte(i8),
    Short(i16),
    Int(i32),
    Long(i64),
    Float(u32),
    Double(u64),
    ByteArray(Seq<i8>),
    String(Seq<char>),
    List(Seq<NbtView>),
    Compound(Map<Seq<char>, NbtView>),
    IntArray(Seq<i32>),
    LongArray(Seq<i64>),
}

/// A tag. `Float` and `Double` hold the bit pattern of the IEEE 754
/// number, as `to_bits` gives it.
#[derive(Debug)]
pub enum NbtValue {
    Byte(i8),
    Short(i16),
    Int(i32),
    Long(i64),
    Float(u32),
    Double(u64),
    ByteArray(Vec<i8>),
    String(String),
    List(Vec<NbtValue>),
    Compound(NbtMap),
    IntArray(Vec<i32>),
    LongArray(Vec<i64>),
}

/// A compound: names bound to tags, in the order in which they were
/// bound.
#[derive(Debug)]
pub struct NbtMap {
    pub entries: Vec<(String, NbtValue)>,
}

/// The value of a tag.
pub open spec fn value_view(value: NbtValue) -> NbtView
    decreases value,
{
    match value {
        NbtValue::Byte(v) => NbtView::Byte(v),
        NbtValue::Short(v) => NbtView::Short(v),
        NbtValue::Int(v) => NbtView::Int(v),
        NbtValue::Long(v) => NbtView::Long(v),
        NbtValue::Float(v) => NbtView::Float(v),
        NbtValue::Double(v) => NbtView::Double(v),
        NbtValue::ByteArray(v) => NbtView::ByteArray(v@),
        NbtValue::String(v) => NbtView::String(v@),
        NbtValue::List(v) => NbtView::List(list_view(v@)),
        NbtValue::Compound(m) => NbtView::Compound(entries_view(m.entries@)),
        NbtValue::IntArray(v) => NbtView::IntArray(v@),
        NbtValue::LongArray(v) => NbtView::LongArray(v@),
    }
}

/// The values of a sequence of tags.
pub open spec fn list_view(tags: Seq<NbtValue>) -> Seq<NbtView>
    decreases tags,
{
    if tags.len() == 0 {
        Seq::empty()
    } else {
        list_view(tags.drop_last()).push(value_view(tags.last()))
    }
}

/// The map that a sequence of entries stands for; a later entry replaces
/// an earlier one of the same name.
pub open spec fn entries_view(entries: Seq<(String, NbtValue)>) -> Map<Seq<char>, NbtView>
    decreases entries,
{
    if entries.len() == 0 {
        Map::empty()
    } else {
        entries_view(entries.drop_last()).insert(entries.last().0@, value_view(entries.last().1))
    }
}

impl View for NbtValue {
    type V = NbtView;

    open spec fn view(&self) -> NbtView {
        value_view(*self)
    }
}

impl View for NbtMap {
    type V = Map<Seq<char>, NbtView>;

    open spec fn view(&self) -> Map<Seq<char>, NbtView> {
        entries_view(self.entries@)
    }
}

/// `index` is the last entry of `entries` that carries the name `key`.
pub open spec fn is_last_with(entries: Seq<(String, NbtValue)>, key: Seq<char>, index: int) -> bool {
    &&& 0 <= index < entries.len()
    &&& entries[index].0@ == key
    &&& forall|j: int| index < j < entries.len() ==> (#[trigger] entries[j]).0@ != key
}

/// No entry of `entries` carries the name `key`.
pub open spec fn none_with(entries: Seq<(String, NbtValue)>, key: Seq<char>) -> bool {
    forall|j: int| 0 <= j < entries.len() ==> (#[trigger] entries[j]).0@ != key
}

/// A name that no entry carries is not bound.
pub proof fn lemma_unbound(entries: Seq<(String, NbtValue)>, key: Seq<char>)
    requires
        none_with(entries, key),
    ensures
        !entries_view(entries).contains_key(key),
    decreases entries.len(),
{
    if entries.len() > 0 {
        assert(entries.last().0@ != key);
        assert forall|j: int| 0 <= j < entries.drop_last().len() implies (
        #[trigger] entries.drop_last()[j]).0@ != key by {
            assert(entries[j].0@ != key);
        }
        lemma_unbound(entries.drop_last(), key);
    }
}

/// A name is bound to the tag of the last entry that carries it.
pub proof fn lemma_bound(entries: Seq<(String, NbtValue)>, key: Seq<char>, index: int)
    requires
        is_last_with(entries, key, index),
    ensures
        entries_view(entries).contains_key(key),
        entries_view(entries)[key] == value_view(entries[index].1),
    decreases entries.len(),
{
    if index < entries.len() - 1 {
        let earlier = entries.drop_last();
        assert(entries.last().0@ != key);
        assert forall|j: int| index < j < earlier.len() implies (#[trigger] earlier[j]).0@ != key by {
            assert(entries[j].0@ != key);
        }
        lemma_bound(earlier, key, index);
    }
}

/// Every entry carries a name that is bound.
pub proof fn lemma_entry_is_bound(entries: Seq<(String, NbtValue)>, index: int)
    requires
        0 <= index < entries.len(),
    ensures
        entries_view(entries).contains_key(entries[index].0@),
    decreases entries.len(),
{
    if index < entries.len() - 1 {
        lemma_entry_is_bound(entries.drop_last(), index);
    }
}

/// Every bound name is carried by some entry.
pub proof fn lemma_bound_has_entry(entries: Seq<(String, NbtValue)>, key: Seq<char>)
    requires
        entries_view(entries).contains_key(key),
    ensures
        exists|i: int| is_last_with(entries, key, i),
    decreases entries.len(),
{
    if entries.len() > 0 {
        if entries.last().0@ == key {
            assert(is_last_with(entries, key, entries.len() - 1));
        } else {
            let earlier = entries.drop_last();
            lemma_bound_has_entry(earlier, key);
            let i = choose|i: int| is_last_with(earlier, key, i);
            assert forall|j: int| i < j < entries.len() implies (#[trigger] entries[j]).0@ != key by {
                if j < earlier.len() {
                    assert(earlier[j].0@ != key);
                }
            }
            assert(is_last_with(entries, key, i));
        }
    }
}

/// Replacing the tag of the last entry that carries a name rebinds the
/// name and keeps the rest.
pub proof fn lemma_rebound(
    entries: Seq<(String, NbtValue)>,
    key: String,
    index: int,
    value: NbtValue,
)
    requires
        is_last_with(entries, key@, index),
    ensures
        entries_view(entries.update(index, (key, value))) == entries_view(entries).insert(
            key@,
            value_view(value),
        ),
    decreases entries.len(),
{
    let updated = entries.update(index, (key, value));
    if index == entries.len() - 1 {
        assert(updated.drop_last() =~= entries.drop_last());
        assert(entries_view(updated) =~= entries_view(entries).insert(key@, value_view(value)));
    } else {
        let earlier = entries.drop_last();
        assert(entries.last().0@ != key@);
        assert forall|j: int| index < j < earlier.len() implies (#[trigger] earlier[j]).0@ != key@ by {
            assert(entries[j].0@ != key@);
        }
        lemma_rebound(earlier, key, index, value);
        assert(updated.drop_last() =~= earlier.update(index, (key, value)));
        assert(updated.last() == entries.last());
        assert(entries_view(updated) =~= entries_view(entries).insert(key@, value_view(value)));
    }
}

/// The entries of `entries` that do not carry the name `key`, in order.
pub open spec fn without(entries: Seq<(String, NbtValue)>, key: Seq<char>) -> Seq<(String, NbtValue)>
    decreases entries.len(),
{
    if entries.len() == 0 {
        entries
    } else if entries.last().0@ == key {
        without(entries.drop_last(), key)
    } else {
        without(entries.drop_last(), key).push(entries.last())
    }
}

/// Leaving out the entries that carry a name unbinds the name and keeps
/// the rest.
pub proof fn lemma_without(entries: Seq<(String, NbtValue)>, key: Seq<char>)
    ensures
        entries_view(without(entries, key)) == entries_view(entries).remove(key),
    decreases entries.len(),
{
    if entries.len() > 0 {
        lemma_without(entries.drop_last(), key);
        if entries.last().0@ != key {
            assert(without(entries, key).drop_last() =~= without(entries.drop_last(), key));
        }
    }
    assert(entries_view(without(entries, key)) =~= entries_view(entries).remove(key));
}

/// Leaving out one entry that carries the name changes nothing of what
/// is left without the name.
pub proof fn lemma_without_remove(entries: Seq<(String, NbtValue)>, key: Seq<char>, index: int)
    requires
        0 <= index < entries.len(),
        entries[index].0@ == key,
    ensures
        without(entries.remove(index), key) == without(entries, key),
    decreases entries.len(),
{
    let shorter = entries.remove(index);
    if index == entries.len() - 1 {
        assert(shorter =~= entries.drop_last());
    } else {
        assert(shorter.drop_last() =~= entries.drop_last().remove(index));
        assert(shorter.last() == entries.last());
        lemma_without_remove(entries.drop_last(), key, index);
    }
}

/// Where no entry carries the name, nothing is left out.
pub proof fn lemma_without_none(entries: Seq<(String, NbtValue)>, key: Seq<char>)
    requires
        none_with(entries, key),
    ensures
        without(entries, key) == entries,
    decreases entries.len(),
{
    if entries.len() > 0 {
        assert(entries.last().0@ != key);
        assert forall|j: int| 0 <= j < entries.drop_last().len() implies (
        #[trigger] entries.drop_last()[j]).0@ != key by {
            assert(entries[j].0@ != key);
        }
        lemma_without_none(entries.drop_last(), key);
        assert(without(entries, key) =~= entries);
    }
}

/// The view of a list goes element by element.
pub proof fn lemma_list_view(tags: Seq<NbtValue>)
    ensures
        list_view(tags).len() == tags.len(),
        forall|i: int| 0 <= i < tags.len() ==> (#[trigger] list_view(tags)[i]) == value_view(tags[i]),
    decreases tags.len(),
{
    if tags.len() > 0 {
        lemma_list_view(tags.drop_last());
    }
}

/// The tag of the last entry that carries the name `key`, if there is
/// one.
pub open spec fn entry_at(entries: Seq<(String, NbtValue)>, key: Seq<char>) -> Option<NbtValue>
    decreases entries.len(),
{
    if entries.len() == 0 {
        None
    } else if entries.last().0@ == key {
        Some(entries.last().1)
    } else {
        entry_at(entries.drop_last(), key)
    }
}

/// `entry_at` gives the tag of the last entry that carries the name.
pub proof fn lemma_entry_at(entries: Seq<(String, NbtValue)>, key: Seq<char>, index: int)
    requires
        is_last_with(entries, key, index),
    ensures
        entry_at(entries, key) == Some(entries[index].1),
    decreases entries.len(),
{
    if index < entries.len() - 1 {
        let earlier = entries.drop_last();
        assert(entries.last().0@ != key);
        assert forall|j: int| index < j < earlier.len() implies (#[trigger] earlier[j]).0@ != key by {
            assert(entries[j].0@ != key);
        }
        lemma_entry_at(earlier, key, index);
    }
}

/// `entry_at` gives nothing for a name that no entry carries.
pub proof fn lemma_no_entry_at(entries: Seq<(String, NbtValue)>, key: Seq<char>)
    requires
        none_with(entries, key),
    ensures
        entry_at(entries, key).is_none(),
    decreases entries.len(),
{
    if entries.len() > 0 {
        assert(entries.last().0@ != key);
        assert forall|j: int| 0 <= j < entries.drop_last().len() implies (
        #[trigger] entries.drop_last()[j]).0@ != key by {
            assert(entries[j].0@ != key);
        }
        lemma_no_entry_at(entries.drop_last(), key);
    }
}

impl NbtMap {
    /// An empty compound.
    pub fn new() -> (r: Self)
        ensures
            r.entries@ == Seq::<(String, NbtValue)>::empty(),
            r@ == Map::<Seq<char>, NbtView>::empty(),
    {
        NbtMap { entries: Vec::new() }
    }

    /// The number of entries.
    pub fn len(&self) -> (r: usize)
        ensures
            r == self.entries.len(),
    {
        self.entries.len()
    }

    /// The index of the last entry that carries `key`, if there is one.
    pub fn position(&self, key: &str) -> (r: Option<usize>)
        ensures
            match r {
                Some(i) => is_last_with(self.entries@, key@, i as int) && self@.contains_key(key@)
                    && self@[key@] == self.entries[i as int].1@ && entry_at(self.entries@, key@)
                    == Some(self.entries[i as int].1),
                None => none_with(self.entries@, key@) && !self@.contains_key(key@) && entry_at(
                    self.entries@,
                    key@,
                ).is_none(),
            },
    {
        let name = key.to_string();
        let mut i: usize = self.entries.len();
        while i > 0
            invariant
                i <= self.entries.len(),
                name@ == key@,
                forall|j: int| i <= j < self.entries.len() ==> (#[trigger] self.entries[j]).0@ != key@,
            decreases i,
        {
            i -= 1;
            if self.entries[i].0 == name {
                proof {
                    lemma_bound(self.entries@, key@, i as int);
                    lemma_entry_at(self.entries@, key@, i as int);
                }
                return Some(i);
            }
        }
        proof {
            lemma_unbound(self.entries@, key@);
            lemma_no_entry_at(self.entries@, key@);
        }
        None
    }

    /// Whether `key` is bound.
    pub fn contains_key(&self, key: &str) -> (r: bool)
        ensures
            r == self@.contains_key(key@),
    {
        self.position(key).is_some()
    }

    /// The tag bound to `key`, if there is one.
    pub fn get(&self, key: &str) -> (r: Option<&NbtValue>)
        ensures
            match r {
                Some(v) => self@.contains_key(key@) && self@[key@] == v@ && entry_at(
                    self.entries@,
                    key@,
                ) == Some(*v),
                None => !self@.contains_key(key@),
            },
    {
        match self.position(key) {
            Some(i) => Some(&self.entries[i].1),
            None => None,
        }
    }

    /// Binds `key` to `value` and returns the tag that was bound to it
    /// before, if any. A name that was bound keeps its place in the order;
    /// a new name goes to the end.
    pub fn insert(&mut self, key: String, value: NbtValue) -> (r: Option<NbtValue>)
        ensures
            final(self)@ == old(self)@.insert(key@, value@),
            match r {
                Some(v) => old(self)@.contains_key(key@) && old(self)@[key@] == v@,
                None => !old(self)@.contains_key(key@) && final(self).entries@ == old(
                    self,
                ).entries@.push((key, value)),
            },
    {
        match self.position(key.as_str()) {
            Some(i) => {
                proof {
                    lemma_rebound(self.entries@, key, i as int, value);
                }
                let mut slot = (key, value);
                core::mem::swap(&mut self.entries[i], &mut slot);
                Some(slot.1)
            },
            None => {
                proof {
                    assert(self.entries@.push((key, value)).drop_last() =~= self.entries@);
                }
                self.entries.push((key, value));
                None
            },
        }
    }

    /// The tag bound to `key`, to be changed in place, if there is one.
    pub fn get_mut(&mut self, key: &str) -> (r: Option<&mut NbtValue>)
        ensures
            match r {
                Some(v) => old(self)@.contains_key(key@) && old(self)@[key@] == v@ && final(self)@
                    == old(self)@.insert(key@, final(v)@),
                None => !old(self)@.contains_key(key@) && *final(self) == *old(self),
            },
    {
        match self.position(key) {
            Some(i) => {
                proof {
                    assert forall|value: NbtValue|
                        entries_view(
                            #[trigger] self.entries@.update(
                                i as int,
                                (self.entries[i as int].0, value),
                            ),
                        ) == self@.insert(key@, value@) by {
                        lemma_rebound(self.entries@, self.entries[i as int].0, i as int, value);
                    }
                }
                Some(&mut self.entries[i].1)
            },
            None => None,
        }
    }

    /// Unbinds `key` and returns the tag it was bound to, if any. The
    /// other entries keep their order.
    pub fn remove(&mut self, key: &str) -> (r: Option<NbtValue>)
        ensures
            final(self)@ == old(self)@.remove(key@),
            final(self).entries@ == without(old(self).entries@, key@),
            match r {
                Some(v) => old(self)@.contains_key(key@) && old(self)@[key@] == v@,
                None => !old(self)@.contains_key(key@),
            },
    {
        let name = key.to_string();
        let mut taken: Option<NbtValue> = None;
        let mut i: usize = self.entries.len();
        proof {
            lemma_without(self.entries@, key@);
            if !self@.contains_key(key@) {
                assert forall|j: int| 0 <= j < self.entries.len() implies (
                #[trigger] self.entries[j]).0@ != key@ by {
                    if self.entries[j].0@ == key@ {
                        lemma_entry_is_bound(self.entries@, j);
                    }
                }
            }
        }
        while i > 0
            invariant
                i <= self.entries.len(),
                name@ == key@,
                without(self.entries@, key@) == without(old(self).entries@, key@),
                forall|j: int| i <= j < self.entries.len() ==> (#[trigger] self.entries[j]).0@ != key@,
                match taken {
                    Some(v) => old(self)@.contains_key(key@) && old(self)@[key@] == v@,
                    None => forall|j: int|
                        i <= j < old(self).entries.len() ==> (#[trigger] old(self).entries[j]).0@
                            != key@,
                },
                taken.is_none() ==> self.entries@ == old(self).entries@,
            decreases i,
        {
            i -= 1;
            if self.entries[i].0 == name {
                proof {
                    lemma_without_remove(self.entries@, key@, i as int);
                    if taken.is_none() {
                        lemma_bound(old(self).entries@, key@, i as int);
                    }
                }
                let entry = self.entries.remove(i);
                if taken.is_none() {
                    taken = Some(entry.1);
                }
            }
        }
        proof {
            lemma_without_none(self.entries@, key@);
            if taken.is_none() {
                lemma_unbound(old(self).entries@, key@);
            }
        }
        taken
    }

    /// Binds the name `key` to `value`.
    pub fn put(&mut self, key: &str, value: NbtValue)
        ensures
            final(self)@ == old(self)@.insert(key@, value@),
    {
        self.insert(key.to_string(), value);
    }

    /// The name of the entry at `index`.
    pub fn key_at(&self, index: usize) -> (r: &String)
        requires
            index < self.entries.len(),
        ensures
            *r == self.entries[index as int].0,
            self@.contains_key(r@),
    {
        proof {
            lemma_entry_is_bound(self.entries@, index as int);
        }
        &self.entries[index].0
    }

    /// The tag of the entry at `index`.
    pub fn value_at(&self, index: usize) -> (r: &NbtValue)
        requires
            index < self.entries.len(),
        ensures
            *r == self.entries[index as int].1,
    {
        &self.entries[index].1
    }
}

impl NbtValue {
    /// The string of a string tag.
    pub fn as_string(&self) -> (r: Option<&String>)
        ensures
            match r {
                Some(s) => self@ == NbtView::String(s@) && *self == NbtValue::String(*s),
                None => !(self@ is String),
            },
    {
        if let NbtValue::String(s) = self {
            Some(s)
        } else {
            None
        }
    }

    /// The number of a byte, short or int tag.
    pub fn as_i32(&self) -> (r: Option<i32>)
        ensures
            r == match self@ {
                NbtView::Byte(v) => Some(v as i32),
                NbtView::Short(v) => Some(v as i32),
                NbtView::Int(v) => Some(v),
                _ => None,
            },
    {
        match self {
            NbtValue::Byte(v) => Some(*v as i32),
            NbtValue::Short(v) => Some(*v as i32),
            NbtValue::Int(v) => Some(*v),
            _ => None,
        }
    }

    /// The number of a long tag.
    pub fn as_i64(&self) -> (r: Option<i64>)
        ensures
            r == match self@ {
                NbtView::Long(v) => Some(v),
                _ => None,
            },
    {
        match self {
            NbtValue::Long(v) => Some(*v),
            _ => None,
        }
    }

    /// The number of a short tag.
    pub fn as_i16(&self) -> (r: Option<i16>)
        ensures
            r == match self@ {
                NbtView::Short(v) => Some(v),
                _ => None,
            },
    {
        match self {
            NbtValue::Short(v) => Some(*v),
            _ => None,
        }
    }

    /// The bit pattern of a double tag.
    pub fn as_double_bits(&self) -> (r: Option<u64>)
        ensures
            r == match self@ {
                NbtView::Double(v) => Some(v),
                _ => None,
            },
    {
        match self {
            NbtValue::Double(v) => Some(*v),
            _ => None,
        }
    }

    /// The compound of a compound tag.
    pub fn as_compound(&self) -> (r: Option<&NbtMap>)
        ensures
            match r {
                Some(m) => self@ == NbtView::Compound(m@) && *self == NbtValue::Compound(*m),
                None => !(self@ is Compound),
            },
    {
        if let NbtValue::Compound(map) = self {
            Some(map)
        } else {
            None
        }
    }

    /// The tags of a list tag.
    pub fn as_list(&self) -> (r: Option<&Vec<NbtValue>>)
        ensures
            match r {
                Some(l) => self@ == NbtView::List(list_view(l@)) && *self == NbtValue::List(*l),
                None => !(self@ is List),
            },
    {
        if let NbtValue::List(list) = self {
            Some(list)
        } else {
            None
        }
    }

    /// The numbers of an int array tag.
    pub fn as_int_array(&self) -> (r: Option<&Vec<i32>>)
        ensures
            match r {
                Some(a) => self@ == NbtView::IntArray(a@),
                None => !(self@ is IntArray),
            },
    {
        if let NbtValue::IntArray(arr) = self {
            Some(arr)
        } else {
            None
        }
    }

    /// The numbers of a long array tag.
    pub fn as_long_array(&self) -> (r: Option<&Vec<i64>>)
        ensures
            match r {
                Some(a) => self@ == NbtView::LongArray(a@),
                None => !(self@ is LongArray),
            },
    {
        if let NbtValue::LongArray(arr) = self {
            Some(arr)
        } else {
            None
        }
    }

    /// The numbers of a byte array tag.
    pub fn as_byte_array(&self) -> (r: Option<&Vec<i8>>)
        ensures
            match r {
                Some(a) => self@ == NbtView::ByteArray(a@),
                None => !(self@ is ByteArray),
            },
    {
        if let NbtValue::ByteArray(arr) = self {
            Some(arr)
        } else {
            None
        }
    }
}

/// A copy of a vector of numbers.
pub fn clone_i8s(v: &Vec<i8>) -> (r: Vec<i8>)
    ensures
        r@ == v@,
{
    let mut copy: Vec<i8> = Vec::new();
    let mut i: usize = 0;
    while i < v.len()
        invariant
            i <= v.len(),
            copy@ == v@.take(i as int),
        decreases v.len() - i,
    {
        copy.push(v[i]);
        proof {
            assert(copy@ =~= v@.take(i as int + 1));
        }
        i += 1;
    }
    proof {
        assert(v@.take(v.len() as int) =~= v@);
    }
    copy
}

/// A copy of a vector of numbers.
pub fn clone_i32s(v: &Vec<i32>) -> (r: Vec<i32>)
    ensures
        r@ == v@,
{
    let mut copy: Vec<i32> = Vec::new();
    let mut i: usize = 0;
    while i < v.len()
        invariant
            i <= v.len(),
            copy@ == v@.take(i as int),
        decreases v.len() - i,
    {
        copy.push(v[i]);
        proof {
            assert(copy@ =~= v@.take(i as int + 1));
        }
        i += 1;
    }
    proof {
        assert(v@.take(v.len() as int) =~= v@);
    }
    copy
}

/// A copy of a vector of numbers.
pub fn clone_i64s(v: &Vec<i64>) -> (r: Vec<i64>)
    ensures
        r@ == v@,
{
    let mut copy: Vec<i64> = Vec::new();
    let mut i: usize = 0;
    while i < v.len()
        invariant
            i <= v.len(),
            copy@ == v@.take(i as int),
        decreases v.len() - i,
    {
        copy.push(v[i]);
        proof {
            assert(copy@ =~= v@.take(i as int + 1));
        }
        i += 1;
    }
    proof {
        assert(v@.take(v.len() as int) =~= v@);
    }
    copy
}

/// A copy of a tag.
pub fn clone_value(value: &NbtValue) -> (r: NbtValue)
    ensures
        r@ == value@,
    decreases value,
{
    match value {
        NbtValue::Byte(v) => NbtValue::Byte(*v),
        NbtValue::Short(v) => NbtValue::Short(*v),
        NbtValue::Int(v) => NbtValue::Int(*v),
        NbtValue::Long(v) => NbtValue::Long(*v),
        NbtValue::Float(v) => NbtValue::Float(*v),
        NbtValue::Double(v) => NbtValue::Double(*v),
        NbtValue::ByteArray(v) => NbtValue::ByteArray(clone_i8s(v)),
        NbtValue::String(v) => NbtValue::String(v.clone()),
        NbtValue::List(v) => NbtValue::List(clone_list(v)),
        NbtValue::Compound(m) => NbtValue::Compound(NbtMap { entries: clone_entries(&m.entries) }),
        NbtValue::IntArray(v) => NbtValue::IntArray(clone_i32s(v)),
        NbtValue::LongArray(v) => NbtValue::LongArray(clone_i64s(v)),
    }
}

/// A copy of a list of tags.
pub fn clone_list(tags: &Vec<NbtValue>) -> (r: Vec<NbtValue>)
    ensures
        list_view(r@) == list_view(tags@),
        r.len() == tags.len(),
    decreases tags,
{
    let mut copy: Vec<NbtValue> = Vec::new();
    let mut i: usize = 0;
    while i < tags.len()
        invariant
            i <= tags.len(),
            copy.len() == i,
            list_view(copy@) == list_view(tags@.take(i as int)),
        decreases tags.len() - i,
    {
        let item = clone_value(&tags[i]);
        proof {
            assert(tags@.take(i as int + 1).drop_last() =~= tags@.take(i as int));
            assert(copy@.push(item).drop_last() =~= copy@);
        }
        copy.push(item);
        i += 1;
    }
    proof {
        assert(tags@.take(tags.len() as int) =~= tags@);
    }
    copy
}

/// A copy of the entries of a compound.
pub fn clone_entries(entries: &Vec<(String, NbtValue)>) -> (r: Vec<(String, NbtValue)>)
    ensures
        entries_view(r@) == entries_view(entries@),
        r.len() == entries.len(),
        forall|i: int| 0 <= i < r.len() ==> (#[trigger] r[i]).0 == entries[i].0 && r[i].1@
            == entries[i].1@,
    decreases entries,
{
    let mut copy: Vec<(String, NbtValue)> = Vec::new();
    let mut i: usize = 0;
    while i < entries.len()
        invariant
            i <= entries.len(),
            copy.len() == i,
            entries_view(copy@) == entries_view(entries@.take(i as int)),
            forall|j: int| 0 <= j < i ==> (#[trigger] copy[j]).0 == entries[j].0 && copy[j].1@
                == entries[j].1@,
        decreases entries.len() - i,
    {
        let key = entries[i].0.clone();
        let item = clone_value(&entries[i].1);
        proof {
            assert(entries@.take(i as int + 1).drop_last() =~= entries@.take(i as int));
            assert(copy@.push((key, item)).drop_last() =~= copy@);
        }
        copy.push((key, item));
        i += 1;
    }
    proof {
        assert(entries@.take(entries.len() as int) =~= entries@);
    }
    copy
}

/// Whether two vectors hold the same bytes.
pub fn same_i8s(a: &Vec<i8>, b: &Vec<i8>) -> (r: bool)
    ensures
        r == (a@ == b@),
{
    if a.len() != b.len() {
        return false;
    }
    let mut i: usize = 0;
    while i < a.len()
        invariant
            i <= a.len(),
            a.len() == b.len(),
            forall|j: int| 0 <= j < i ==> a[j] == b[j],
        decreases a.len() - i,
    {
        if a[i] != b[i] {
            return false;
        }
        i += 1;
    }
    proof {
        assert(a@ =~= b@);
    }
    true
}

/// Whether two vectors hold the same numbers.
pub fn same_i32s(a: &Vec<i32>, b: &Vec<i32>) -> (r: bool)
    ensures
        r == (a@ == b@),
{
    if a.len() != b.len() {
        return false;
    }
    let mut i: usize = 0;
    while i < a.len()
        invariant
            i <= a.len(),
            a.len() == b.len(),
            forall|j: int| 0 <= j < i ==> a[j] == b[j],
        decreases a.len() - i,
    {
        if a[i] != b[i] {
            return false;
        }
        i += 1;
    }
    proof {
        assert(a@ =~= b@);
    }
    true
}

/// Whether two vectors hold the same numbers.
pub fn same_i64s(a: &Vec<i64>, b: &Vec<i64>) -> (r: bool)
    ensures
        r == (a@ == b@),
{
    if a.len() != b.len() {
        return false;
    }
    let mut i: usize = 0;
    while i < a.len()
        invariant
            i <= a.len(),
            a.len() == b.len(),
            forall|j: int| 0 <= j < i ==> a[j] == b[j],
        decreases a.len() - i,
    {
        if a[i] != b[i] {
            return false;
        }
        i += 1;
    }
    proof {
        assert(a@ =~= b@);
    }
    true
}

/// Whether two tags have the same value. Floating-point numbers are the
/// same when their bit patterns are.
pub fn same_value(a: &NbtValue, b: &NbtValue) -> (r: bool)
    ensures
        r == (a@ == b@),
    decreases a,
{
    match (a, b) {
        (NbtValue::Byte(x), NbtValue::Byte(y)) => *x == *y,
        (NbtValue::Short(x), NbtValue::Short(y)) => *x == *y,
        (NbtValue::Int(x), NbtValue::Int(y)) => *x == *y,
        (NbtValue::Long(x), NbtValue::Long(y)) => *x == *y,
        (NbtValue::Float(x), NbtValue::Float(y)) => *x == *y,
        (NbtValue::Double(x), NbtValue::Double(y)) => *x == *y,
        (NbtValue::ByteArray(x), NbtValue::ByteArray(y)) => same_i8s(x, y),
        (NbtValue::String(x), NbtValue::String(y)) => *x == *y,
        (NbtValue::List(x), NbtValue::List(y)) => same_list(x, y),
        (NbtValue::Compound(x), NbtValue::Compound(y)) => same_map(x, y),
        (NbtValue::IntArray(x), NbtValue::IntArray(y)) => same_i32s(x, y),
        (NbtValue::LongArray(x), NbtValue::LongArray(y)) => same_i64s(x, y),
        _ => false,
    }
}

/// Whether two lists hold tags of the same values in the same order.
pub fn same_list(a: &Vec<NbtValue>, b: &Vec<NbtValue>) -> (r: bool)
    ensures
        r == (list_view(a@) == list_view(b@)),
    decreases a,
{
    proof {
        lemma_list_view(a@);
        lemma_list_view(b@);
    }
    if a.len() != b.len() {
        return false;
    }
    let mut i: usize = 0;
    while i < a.len()
        invariant
            i <= a.len(),
            a.len() == b.len(),
            list_view(a@).len() == a.len(),
            list_view(b@).len() == b.len(),
            forall|j: int| 0 <= j < a.len() ==> (#[trigger] list_view(a@)[j]) == value_view(a[j]),
            forall|j: int| 0 <= j < b.len() ==> (#[trigger] list_view(b@)[j]) == value_view(b[j]),
            forall|j: int| 0 <= j < i ==> a[j]@ == b[j]@,
        decreases a.len() - i,
    {
        if !same_value(&a[i], &b[i]) {
            proof {
                assert(list_view(a@)[i as int] != list_view(b@)[i as int]);
            }
            return false;
        }
        i += 1;
    }
    proof {
        assert(list_view(a@) =~= list_view(b@));
    }
    true
}

/// Whether two compounds bind the same names to tags of the same values.
pub fn same_map(a: &NbtMap, b: &NbtMap) -> (r: bool)
    ensures
        r == (a@ == b@),
    decreases a,
{
    let mut i: usize = 0;
    while i < a.entries.len()
        invariant
            i <= a.entries.len(),
            forall|j: int|
                0 <= j < i ==> a@.contains_key((#[trigger] a.entries[j]).0@) && b@.contains_key(
                    a.entries[j].0@,
                ) && a@[a.entries[j].0@] == b@[a.entries[j].0@],
        decreases a.entries.len() - i,
    {
        let key = a.entries[i].0.as_str();
        proof {
            lemma_entry_is_bound(a.entries@, i as int);
        }
        match a.position(key) {
            Some(here) => match b.position(key) {
                Some(there) => {
                    if !same_value(&a.entries[here].1, &b.entries[there].1) {
                        proof {
                            assert(a@[key@] != b@[key@]);
                        }
                        return false;
                    }
                },
                None => {
                    proof {
                        assert(a@.contains_key(key@) && !b@.contains_key(key@));
                    }
                    return false;
                },
            },
            None => {
                return false;
            },
        }
        i += 1;
    }
    let mut k: usize = 0;
    while k < b.entries.len()
        invariant
            k <= b.entries.len(),
            forall|j: int| 0 <= j < k ==> a@.contains_key((#[trigger] b.entries[j]).0@),
        decreases b.entries.len() - k,
    {
        proof {
            lemma_entry_is_bound(b.entries@, k as int);
        }
        if !a.contains_key(b.entries[k].0.as_str()) {
            return false;
        }
        k += 1;
    }
    proof {
        assert forall|name: Seq<char>| #[trigger]
            a@.dom().contains(name) implies b@.dom().contains(name) && a@[name] == b@[name] by {
            lemma_bound_has_entry(a.entries@, name);
            let j = choose|j: int| is_last_with(a.entries@, name, j);
            assert(a.entries[j].0@ == name);
        }
        assert forall|name: Seq<char>| #[trigger]
            b@.dom().contains(name) implies a@.dom().contains(name) by {
            lemma_bound_has_entry(b.entries@, name);
            let j = choose|j: int| is_last_with(b.entries@, name, j);
            assert(b.entries[j].0@ == name);
        }
        assert(a@.dom() =~= b@.dom());
        assert(a@ =~= b@);
    }
    true
}

impl PartialEq for NbtValue {
    /// Two tags are equal when they have the same value.
    fn eq(&self, other: &Self) -> (r: bool) {
        same_value(self, other)
    }
}

impl vstd::std_specs::cmp::PartialEqSpecImpl for NbtValue {
    open spec fn obeys_eq_spec() -> bool {
        true
    }

    open spec fn eq_spec(&self, other: &Self) -> bool {
        self@ == other@
    }
}

impl PartialEq for NbtMap {
    /// Two compounds are equal when they bind the same names to equal
    /// tags, in whatever order.
    fn eq(&self, other: &Self) -> (r: bool) {
        same_map(self, other)
    }
}

impl vstd::std_specs::cmp::PartialEqSpecImpl for NbtMap {
    open spec fn obeys_eq_spec() -> bool {
        true
    }

    open spec fn eq_spec(&self, other: &Self) -> bool {
        self@ == other@
    }
}

impl Clone for NbtValue {
    fn clone(&self) -> (r: Self)
        ensures
            r@ == self@,
    {
        clone_value(self)
    }
}

impl Clone for NbtMap {
    fn clone(&self) -> (r: Self)
        ensures
            r@ == self@,
    {
        NbtMap { entries: clone_entries(&self.entries) }
    }
}

/// The string bound to `key`, when a string is.
pub open spec fn string_at(m: Map<Seq<char>, NbtView>, key: Seq<char>) -> Option<Seq<char>> {
    if m.contains_key(key) && m[key] is String {
        Some(m[key]->String_0)
    } else {
        None
    }
}

/// The compound bound to `key`, when a compound is.
pub open spec fn compound_at(m: Map<Seq<char>, NbtView>, key: Seq<char>) -> Option<
    Map<Seq<char>, NbtView>,
> {
    if m.contains_key(key) && m[key] is Compound {
        Some(m[key]->Compound_0)
    } else {
        None
    }
}

/// The list bound to `key`, when a list is.
pub open spec fn list_at(m: Map<Seq<char>, NbtView>, key: Seq<char>) -> Option<Seq<NbtView>> {
    if m.contains_key(key) && m[key] is List {
        Some(m[key]->List_0)
    } else {
        None
    }
}

/// The int bound to `key`, when an int is.
pub open spec fn int_at(m: Map<Seq<char>, NbtView>, key: Seq<char>) -> Option<i32> {
    if m.contains_key(key) && m[key] is Int {
        Some(m[key]->Int_0)
    } else {
        None
    }
}

/// The short bound to `key`, when a short is.
pub open spec fn short_at(m: Map<Seq<char>, NbtView>, key: Seq<char>) -> Option<i16> {
    if m.contains_key(key) && m[key] is Short {
        Some(m[key]->Short_0)
    } else {
        None
    }
}

/// The long bound to `key`, when a long is.
pub open spec fn long_at(m: Map<Seq<char>, NbtView>, key: Seq<char>) -> Option<i64> {
    if m.contains_key(key) && m[key] is Long {
        Some(m[key]->Long_0)
    } else {
        None
    }
}

/// The int array bound to `key`, when an int array is.
pub open spec fn int_array_at(m: Map<Seq<char>, NbtView>, key: Seq<char>) -> Option<Seq<i32>> {
    if m.contains_key(key) && m[key] is IntArray {
        Some(m[key]->IntArray_0)
    } else {
        None
    }
}

/// The long array bound to `key`, when a long array is.
pub open spec fn long_array_at(m: Map<Seq<char>, NbtView>, key: Seq<char>) -> Option<Seq<i64>> {
    if m.contains_key(key) && m[key] is LongArray {
        Some(m[key]->LongArray_0)
    } else {
        None
    }
}

/// The byte array bound to `key`, when a byte array is.
pub open spec fn byte_array_at(m: Map<Seq<char>, NbtView>, key: Seq<char>) -> Option<Seq<i8>> {
    if m.contains_key(key) && m[key] is ByteArray {
        Some(m[key]->ByteArray_0)
    } else {
        None
    }
}

/// The names of a compound that are bound to strings, with those strings.
pub open spec fn strings_of(m: Map<Seq<char>, NbtView>) -> Map<Seq<char>, Seq<char>> {
    Map::new(
        |k: Seq<char>| m.contains_key(k) && m[k] is String,
        |k: Seq<char>| m[k]->String_0,
    )
}

/// The compound that binds every name of `m` to its string.
pub open spec fn strings_nbt(m: Map<Seq<char>, Seq<char>>) -> Map<Seq<char>, NbtView> {
    Map::new(|k: Seq<char>| m.contains_key(k), |k: Seq<char>| NbtView::String(m[k]))
}

impl NbtMap {
    /// Whether the entry at `index` is the last one that carries its name,
    /// the one that counts.
    pub fn is_current(&self, index: usize) -> (r: bool)
        requires
            index < self.entries.len(),
        ensures
            r == is_last_with(self.entries@, self.entries[index as int].0@, index as int),
            r ==> self@[self.entries[index as int].0@] == self.entries[index as int].1@,
    {
        let mut j: usize = index + 1;
        while j < self.entries.len()
            invariant
                index < j <= self.entries.len(),
                forall|k: int| index < k < j ==> (#[trigger] self.entries[k]).0@
                    != self.entries[index as int].0@,
            decreases self.entries.len() - j,
        {
            if self.entries[j].0 == self.entries[index].0 {
                return false;
            }
            j += 1;
        }
        proof {
            lemma_bound(self.entries@, self.entries[index as int].0@, index as int);
        }
        true
    }

    /// The string bound to `key`, when a string is.
    pub fn get_string(&self, key: &str) -> (r: Option<&String>)
        ensures
            match r {
                Some(s) => string_at(self@, key@) == Some(s@),
                None => string_at(self@, key@).is_none(),
            },
    {
        match self.get(key) {
            Some(value) => value.as_string(),
            None => None,
        }
    }

    /// The compound bound to `key`, when a compound is.
    pub fn get_compound(&self, key: &str) -> (r: Option<&NbtMap>)
        ensures
            match r {
                Some(m) => compound_at(self@, key@) == Some(m@) && entry_at(self.entries@, key@)
                    == Some(NbtValue::Compound(*m)),
                None => compound_at(self@, key@).is_none(),
            },
    {
        match self.get(key) {
            Some(value) => value.as_compound(),
            None => None,
        }
    }

    /// The list bound to `key`, when a list is.
    pub fn get_list(&self, key: &str) -> (r: Option<&Vec<NbtValue>>)
        ensures
            match r {
                Some(l) => list_at(self@, key@) == Some(list_view(l@)),
                None => list_at(self@, key@).is_none(),
            },
    {
        match self.get(key) {
            Some(value) => value.as_list(),
            None => None,
        }
    }

    /// The int bound to `key`, when an int is.
    pub fn get_int(&self, key: &str) -> (r: Option<i32>)
        ensures
            r == int_at(self@, key@),
    {
        match self.get(key) {
            Some(NbtValue::Int(v)) => Some(*v),
            _ => None,
        }
    }

    /// The short bound to `key`, when a short is.
    pub fn get_short(&self, key: &str) -> (r: Option<i16>)
        ensures
            r == short_at(self@, key@),
    {
        match self.get(key) {
            Some(NbtValue::Short(v)) => Some(*v),
            _ => None,
        }
    }

    /// The long bound to `key`, when a long is.
    pub fn get_long(&self, key: &str) -> (r: Option<i64>)
        ensures
            r == long_at(self@, key@),
    {
        match self.get(key) {
            Some(NbtValue::Long(v)) => Some(*v),
            _ => None,
        }
    }

    /// The int array bound to `key`, when an int array is.
    pub fn get_int_array(&self, key: &str) -> (r: Option<&Vec<i32>>)
        ensures
            match r {
                Some(a) => int_array_at(self@, key@) == Some(a@),
                None => int_array_at(self@, key@).is_none(),
            },
    {
        match self.get(key) {
            Some(value) => value.as_int_array(),
            None => None,
        }
    }

    /// The long array bound to `key`, when a long array is.
    pub fn get_long_array(&self, key: &str) -> (r: Option<&Vec<i64>>)
        ensures
            match r {
                Some(a) => long_array_at(self@, key@) == Some(a@),
                None => long_array_at(self@, key@).is_none(),
            },
    {
        match self.get(key) {
            Some(value) => value.as_long_array(),
            None => None,
        }
    }

    /// The byte array bound to `key`, when a byte array is.
    pub fn get_byte_array(&self, key: &str) -> (r: Option<&Vec<i8>>)
        ensures
            match r {
                Some(a) => byte_array_at(self@, key@) == Some(a@),
                None => byte_array_at(self@, key@).is_none(),
            },
    {
        match self.get(key) {
            Some(value) => value.as_byte_array(),
            None => None,
        }
    }

    /// The names that are bound to strings, with those strings; other
    /// entries are left out.
    pub fn string_entries(&self) -> (r: StringMap)
        ensures
            r@ == strings_of(self@),
    {
        let mut result = StringMap::new();
        let mut i: usize = 0;
        while i < self.entries.len()
            invariant
                i <= self.entries.len(),
                forall|k: Seq<char>|
                    result@.contains_key(k) <==> exists|j: int|
                        0 <= j < i && #[trigger] is_last_with(self.entries@, k, j)
                            && self.entries[j].1@ is String,
                forall|k: Seq<char>| #[trigger]
                    result@.contains_key(k) ==> self@.contains_key(k) && self@[k] is String
                        && result@[k] == self@[k]->String_0,
            decreases self.entries.len() - i,
        {
            let ghost before = result@;
            let ghost key = self.entries[i as int].0@;
            if self.is_current(i) {
                if let NbtValue::String(text) = &self.entries[i].1 {
                    result.insert(self.entries[i].0.clone(), text.clone());
                }
            }
            proof {
                lemma_entry_is_bound(self.entries@, i as int);
                assert forall|k: Seq<char>| #[trigger]
                    result@.contains_key(k) implies self@.contains_key(k) && self@[k] is String
                    && result@[k] == self@[k]->String_0 by {
                    if !before.contains_key(k) || k == key {
                        assert(k == key);
                    }
                }
                assert forall|k: Seq<char>|
                    result@.contains_key(k) <==> exists|j: int|
                        0 <= j < i + 1 && #[trigger] is_last_with(self.entries@, k, j)
                            && self.entries[j].1@ is String by {
                    if result@.contains_key(k) {
                        if before.contains_key(k) {
                            let j = choose|j: int|
                                0 <= j < i && #[trigger] is_last_with(self.entries@, k, j)
                                    && self.entries[j].1@ is String;
                            assert(0 <= j < i + 1 && is_last_with(self.entries@, k, j));
                        } else {
                            assert(is_last_with(self.entries@, k, i as int));
                        }
                    }
                    if exists|j: int|
                        0 <= j < i + 1 && #[trigger] is_last_with(self.entries@, k, j)
                            && self.entries[j].1@ is String {
                        let j = choose|j: int|
                            0 <= j < i + 1 && #[trigger] is_last_with(self.entries@, k, j)
                                && self.entries[j].1@ is String;
                        if j < i {
                            assert(before.contains_key(k));
                        }
                    }
                }
            }
            i += 1;
        }
        proof {
            assert(result@ =~= strings_of(self@)) by {
                assert forall|k: Seq<char>| strings_of(self@).contains_key(k) implies result@.contains_key(
                    k,
                ) by {
                    lemma_bound_has_entry(self.entries@, k);
                    let j = choose|j: int| is_last_with(self.entries@, k, j);
                    lemma_bound(self.entries@, k, j);
                    assert(is_last_with(self.entries@, k, j) && self.entries[j].1@ is String);
                }
            }
        }
        result
    }

    /// The compound that binds every name of `strings` to its string.
    pub fn from_string_map(strings: &StringMap) -> (r: NbtMap)
        ensures
            r@ == strings_nbt(strings@),
    {
        let n = strings.len();
        let ghost entries = strings.entries();
        let mut result = NbtMap::new();
        let mut i: usize = 0;
        while i < n
            invariant
                i <= n,
                n == entries.len(),
                entries == strings.entries(),
                distinct_keys(entries),
                strings@ == entries_to_map(entries),
                forall|k: Seq<char>|
                    result@.contains_key(k) <==> exists|j: int|
                        0 <= j < i && (#[trigger] entries[j]).0 == k,
                forall|j: int|
                    0 <= j < i ==> result@[(#[trigger] entries[j]).0] == NbtView::String(
                        entries[j].1,
                    ),
            decreases n - i,
        {
            let key = strings.key_at(i).clone();
            let value = strings.value_at(i).clone();
            let ghost before = result@;
            result.insert(key, NbtValue::String(value));
            proof {
                assert forall|k: Seq<char>|
                    result@.contains_key(k) <==> exists|j: int|
                        0 <= j < i + 1 && (#[trigger] entries[j]).0 == k by {
                    if result@.contains_key(k) {
                        if before.contains_key(k) {
                            let j = choose|j: int| 0 <= j < i && (#[trigger] entries[j]).0 == k;
                            assert(0 <= j < i + 1 && entries[j].0 == k);
                        } else {
                            assert(entries[i as int].0 == k);
                        }
                    }
                }
                assert forall|j: int| 0 <= j < i + 1 implies result@[(#[trigger] entries[j]).0]
                    == NbtView::String(entries[j].1) by {
                    if j < i {
                        assert(entries[j].0 != entries[i as int].0);
                    }
                }
            }
            i += 1;
        }
        proof {
            assert(result@ =~= strings_nbt(strings@)) by {
                assert forall|k: Seq<char>| result@.contains_key(k) <==> strings@.contains_key(
                    k,
                ) by {
                    if strings@.contains_key(k) {
                        assert(has_key(entries, k));
                        let j = choose|j: int| 0 <= j < entries.len() && (#[trigger] entries[j]).0 == k;
                        assert(0 <= j < n && entries[j].0 == k);
                    }
                    if result@.contains_key(k) {
                        let j = choose|j: int| 0 <= j < n && (#[trigger] entries[j]).0 == k;
                        assert(has_key(entries, k));
                    }
                }
                assert forall|k: Seq<char>| result@.contains_key(k) implies result@[k]
                    == strings_nbt(strings@)[k] by {
                    let j = choose|j: int| 0 <= j < n && (#[trigger] entries[j]).0 == k;
                    lemma_entry_bound(entries, j);
                }
            }
        }
        result
    }
}

} // verus!
