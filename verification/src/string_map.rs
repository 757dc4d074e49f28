//! A small string-to-string map that keeps its entries in insertion order.
//!
//! The map is stored as a vector of `(key, value)` pairs in which no key
//! occurs twice. Its mathematical model is a `Map<Seq<char>, Seq<char>>`.

use crate::assoc::{
    distinct_keys,
    entries_to_map,
    has_key,
    lemma_entry_bound,
    lemma_map_len,
    lemma_push_entry,
    lemma_remove_entry,
    lemma_update_entry,
};
use vstd::prelude::*;

verus! {

/// The type of the entries of a map, as plain sequences of characters.
pub type Entry = (Seq<char>, Seq<char>);

/// A map from strings to strings that remembers the order in which its keys
/// were first inserted.
#[derive(Debug)]
pub struct StringMap {
    entries: Vec<(String, String)>,
}

impl View for StringMap {
    type V = Map<Seq<char>, Seq<char>>;

    open spec fn view(&self) -> Map<Seq<char>, Seq<char>> {
        entries_to_map(self.entries())
    }
}

impl StringMap {
    /// The entries of the map in insertion order.
    pub closed spec fn entries(&self) -> Seq<Entry> {
        self.entries@.map_values(|p: (String, String)| (p.0@, p.1@))
    }

    #[verifier::type_invariant]
    spec fn keys_are_distinct(&self) -> bool {
        distinct_keys(self.entries())
    }

    /// An empty map.
    pub fn new() -> (r: Self)
        ensures
            r.entries() == Seq::<Entry>::empty(),
            r@ == Map::<Seq<char>, Seq<char>>::empty(),
    {
        let r = StringMap { entries: Vec::new() };
        proof {
            assert(r.entries() =~= Seq::<Entry>::empty());
            assert(r@ =~= Map::<Seq<char>, Seq<char>>::empty());
        }
        r
    }

    /// The number of entries.
    pub fn len(&self) -> (r: usize)
        ensures
            r == self.entries().len(),
            self@.dom().finite(),
            r == self@.len(),
            distinct_keys(self.entries()),
    {
        proof {
            use_type_invariant(self);
            lemma_map_len(self.entries());
        }
        self.entries.len()
    }

    /// Whether the map has no entry.
    pub fn is_empty(&self) -> (r: bool)
        ensures
            r == (self.entries().len() == 0),
            r == (self@ == Map::<Seq<char>, Seq<char>>::empty()),
    {
        proof {
            if self.entries().len() == 0 {
                assert(self@ =~= Map::<Seq<char>, Seq<char>>::empty());
            } else {
                assert(has_key(self.entries(), self.entries()[0].0));
                assert(self@.contains_key(self.entries()[0].0));
            }
        }
        self.entries.len() == 0
    }

    /// The index of the entry that carries `key`, if there is one.
    fn position(&self, key: &String) -> (r: Option<usize>)
        ensures
            match r {
                Some(i) => i < self.entries().len() && self.entries()[i as int].0 == key@,
                None => !has_key(self.entries(), key@),
            },
    {
        let mut i: usize = 0;
        while i < self.entries.len()
            invariant
                i <= self.entries.len(),
                forall|j: int| 0 <= j < i ==> (#[trigger] self.entries()[j]).0 != key@,
            decreases self.entries.len() - i,
        {
            if self.entries[i].0 == *key {
                return Some(i);
            }
            i += 1;
        }
        None
    }

    /// The key of the entry at `index`, in insertion order.
    pub fn key_at(&self, index: usize) -> (r: &String)
        requires
            index < self.entries().len(),
        ensures
            r@ == self.entries()[index as int].0,
            self@.contains_key(r@),
    {
        proof {
            use_type_invariant(self);
            lemma_entry_bound(self.entries(), index as int);
        }
        &self.entries[index].0
    }

    /// The value of the entry at `index`, in insertion order.
    pub fn value_at(&self, index: usize) -> (r: &String)
        requires
            index < self.entries().len(),
        ensures
            r@ == self.entries()[index as int].1,
            r@ == self@[self.entries()[index as int].0],
    {
        proof {
            use_type_invariant(self);
            lemma_entry_bound(self.entries(), index as int);
        }
        &self.entries[index].1
    }

    /// Whether `key` is bound.
    pub fn contains_key(&self, key: &str) -> (r: bool)
        ensures
            r == self@.contains_key(key@),
    {
        let k = key.to_string();
        self.position(&k).is_some()
    }

    /// The value bound to `key`, if there is one.
    pub fn get(&self, key: &str) -> (r: Option<&String>)
        ensures
            match r {
                Some(v) => self@.contains_key(key@) && v@ == self@[key@],
                None => !self@.contains_key(key@),
            },
    {
        let k = key.to_string();
        match self.position(&k) {
            Some(i) => {
                proof {
                    use_type_invariant(self);
                    lemma_entry_bound(self.entries(), i as int);
                }
                Some(&self.entries[i].1)
            },
            None => None,
        }
    }

    /// Binds `key` to `value`. A key that was bound keeps its place in the
    /// order and its former value is returned; a new key goes to the end.
    pub fn insert(&mut self, key: String, value: String) -> (r: Option<String>)
        ensures
            final(self)@ == old(self)@.insert(key@, value@),
            match r {
                Some(v) => old(self)@.contains_key(key@) && v@ == old(self)@[key@] && exists|i: int|
                    0 <= i < old(self).entries().len() && (#[trigger] old(self).entries()[i]).0
                        == key@ && final(self).entries() == old(self).entries().update(
                        i,
                        (key@, value@),
                    ),
                None => !old(self)@.contains_key(key@) && final(self).entries() == old(
                    self,
                ).entries().push((key@, value@)),
            },
    {
        proof {
            use_type_invariant(&*self);
        }
        match self.position(&key) {
            Some(i) => {
                let former = self.entries[i].1.clone();
                proof {
                    lemma_entry_bound(self.entries(), i as int);
                    lemma_update_entry(self.entries(), i as int, value@);
                    assert(self.entries@.update(i as int, (key, value)).map_values(
                        |p: (String, String)| (p.0@, p.1@),
                    ) =~= self.entries().update(i as int, (key@, value@)));
                }
                let mut entries: Vec<(String, String)> = Vec::new();
                core::mem::swap(&mut self.entries, &mut entries);
                entries.set(i, (key, value));
                self.entries = entries;
                Some(former)
            },
            None => {
                proof {
                    lemma_push_entry(self.entries(), key@, value@);
                    assert(self.entries@.push((key, value)).map_values(
                        |p: (String, String)| (p.0@, p.1@),
                    ) =~= self.entries().push((key@, value@)));
                }
                let mut entries: Vec<(String, String)> = Vec::new();
                core::mem::swap(&mut self.entries, &mut entries);
                entries.push((key, value));
                self.entries = entries;
                None
            },
        }
    }

    /// Unbinds `key` and returns the value it was bound to, if any. The
    /// other entries keep their order.
    pub fn remove(&mut self, key: &str) -> (r: Option<String>)
        ensures
            final(self)@ == old(self)@.remove(key@),
            match r {
                Some(v) => old(self)@.contains_key(key@) && v@ == old(self)@[key@] && exists|i: int|
                    0 <= i < old(self).entries().len() && (#[trigger] old(self).entries()[i]).0
                        == key@ && final(self).entries() == old(self).entries().remove(i),
                None => !old(self)@.contains_key(key@) && final(self).entries() == old(
                    self,
                ).entries(),
            },
    {
        proof {
            use_type_invariant(&*self);
        }
        let k = key.to_string();
        match self.position(&k) {
            Some(i) => {
                proof {
                    lemma_entry_bound(self.entries(), i as int);
                    lemma_remove_entry(self.entries(), i as int);
                    assert(self.entries@.remove(i as int).map_values(
                        |p: (String, String)| (p.0@, p.1@),
                    ) =~= self.entries().remove(i as int));
                }
                let mut entries: Vec<(String, String)> = Vec::new();
                core::mem::swap(&mut self.entries, &mut entries);
                let taken = entries.remove(i);
                self.entries = entries;
                Some(taken.1)
            },
            None => {
                proof {
                    assert(self@.remove(key@) =~= self@);
                }
                None
            },
        }
    }
}

impl Clone for StringMap {
    fn clone(&self) -> (r: Self)
        ensures
            r.entries() == self.entries(),
            r@ == self@,
    {
        proof {
            use_type_invariant(self);
        }
        let mut entries: Vec<(String, String)> = Vec::new();
        let mut i: usize = 0;
        while i < self.entries.len()
            invariant
                i <= self.entries.len(),
                entries.len() == i,
                forall|j: int| 0 <= j < i ==> #[trigger] entries[j] == self.entries[j],
            decreases self.entries.len() - i,
        {
            let k = self.entries[i].0.clone();
            let v = self.entries[i].1.clone();
            entries.push((k, v));
            i += 1;
        }
        proof {
            assert(entries@ =~= self.entries@);
        }
        StringMap { entries }
    }
}

impl PartialEq for StringMap {
    /// Two maps are equal when they bind the same keys to the same values,
    /// whatever the order of their entries.
    fn eq(&self, other: &Self) -> (r: bool) {
        proof {
            use_type_invariant(self);
            use_type_invariant(other);
            lemma_map_len(self.entries());
            lemma_map_len(other.entries());
        }
        if self.entries.len() != other.entries.len() {
            return false;
        }
        let mut i: usize = 0;
        while i < self.entries.len()
            invariant
                i <= self.entries.len(),
                distinct_keys(self.entries()),
                distinct_keys(other.entries()),
                forall|j: int|
                    0 <= j < i ==> other@.contains_key((#[trigger] self.entries()[j]).0)
                        && other@[self.entries()[j].0] == self.entries()[j].1,
            decreases self.entries.len() - i,
        {
            proof {
                lemma_entry_bound(self.entries(), i as int);
            }
            match other.position(&self.entries[i].0) {
                Some(j) => {
                    proof {
                        lemma_entry_bound(other.entries(), j as int);
                    }
                    if other.entries[j].1 != self.entries[i].1 {
                        return false;
                    }
                },
                None => {
                    return false;
                },
            }
            i += 1;
        }
        proof {
            assert(self@.dom().subset_of(other@.dom())) by {
                assert forall|k: Seq<char>| self@.dom().contains(k) implies other@.dom().contains(
                    k,
                ) by {
                    let j = choose|j: int|
                        0 <= j < self.entries().len() && (#[trigger] self.entries()[j]).0 == k;
                    assert(other@.contains_key(self.entries()[j].0));
                }
            }
            vstd::set_lib::lemma_subset_equality(self@.dom(), other@.dom());
            assert(self@ =~= other@) by {
                assert forall|k: Seq<char>| self@.contains_key(k) implies self@[k] == other@[k] by {
                    let j = choose|j: int|
                        0 <= j < self.entries().len() && (#[trigger] self.entries()[j]).0 == k;
                    lemma_entry_bound(self.entries(), j);
                }
            }
        }
        true
    }
}

impl vstd::std_specs::cmp::PartialEqSpecImpl for StringMap {
    open spec fn obeys_eq_spec() -> bool {
        true
    }

    open spec fn eq_spec(&self, other: &Self) -> bool {
        self@ == other@
    }
}

} // verus!
