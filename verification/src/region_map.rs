//! The regions of a schematic, each under its name, in the order in which
//! the names were first used.

use crate::assoc::{
    distinct_keys,
    entries_to_map,
    has_key,
    lemma_entry_bound,
    lemma_map_len,
    lemma_push_entry,
    lemma_remove_entry,
    lemma_update_entry,
};
use crate::region::Region;
use vstd::prelude::*;

verus! {

/// A name and the region stored under it.
pub type NamedRegion = (Seq<char>, Region);

/// A map from names to regions that keeps insertion order.
#[derive(Debug)]
pub struct RegionMap {
    pub entries: Vec<(String, Region)>,
}

impl View for RegionMap {
    type V = Map<Seq<char>, Region>;

    open spec fn view(&self) -> Map<Seq<char>, Region> {
        entries_to_map(self.named())
    }
}

impl RegionMap {
    /// The entries of the map in insertion order, each name as a sequence
    /// of characters.
    pub open spec fn named(&self) -> Seq<NamedRegion> {
        self.entries@.map_values(|p: (String, Region)| (p.0@, p.1))
    }

    /// No name occurs twice.
    pub open spec fn wf(&self) -> bool {
        distinct_keys(self.named())
    }

    /// The regions of the map in insertion order.
    pub open spec fn regions(&self) -> Seq<Region> {
        self.entries@.map_values(|p: (String, Region)| p.1)
    }

    /// An empty map.
    pub fn new() -> (r: Self)
        ensures
            r.wf(),
            r.entries@ == Seq::<(String, Region)>::empty(),
            r@ == Map::<Seq<char>, Region>::empty(),
    {
        let r = RegionMap { entries: Vec::new() };
        proof {
            assert(r.named() =~= Seq::<NamedRegion>::empty());
            assert(r@ =~= Map::<Seq<char>, Region>::empty());
        }
        r
    }

    /// Whether no name occurs twice.
    pub fn is_well_formed(&self) -> (r: bool)
        ensures
            r == self.wf(),
    {
        let mut j: usize = 0;
        while j < self.entries.len()
            invariant
                j <= self.entries.len(),
                forall|a: int, b: int| 0 <= a < b < j ==> (#[trigger] self.named()[a]).0 != (
                #[trigger] self.named()[b]).0,
            decreases self.entries.len() - j,
        {
            let mut i: usize = 0;
            while i < j
                invariant
                    i <= j,
                    j < self.entries.len(),
                    forall|a: int| 0 <= a < i ==> (#[trigger] self.named()[a]).0 != self.named()[j as int].0,
                decreases j - i,
            {
                if self.entries[i].0 == self.entries[j].0 {
                    proof {
                        assert(self.named()[i as int].0 == self.named()[j as int].0);
                    }
                    return false;
                }
                i += 1;
            }
            j += 1;
        }
        true
    }

    /// The number of regions.
    pub fn len(&self) -> (r: usize)
        ensures
            r == self.entries.len(),
            self.wf() ==> self@.dom().finite() && r == self@.len(),
    {
        proof {
            if self.wf() {
                lemma_map_len(self.named());
            }
        }
        self.entries.len()
    }

    /// Whether the map holds no region.
    pub fn is_empty(&self) -> (r: bool)
        ensures
            r == (self.entries.len() == 0),
    {
        self.entries.len() == 0
    }

    /// The index of the entry stored under `key`, if there is one.
    pub fn position(&self, key: &str) -> (r: Option<usize>)
        ensures
            match r {
                Some(i) => i < self.entries.len() && self.entries[i as int].0@ == key@ && forall|
                    j: int,
                | 0 <= j < i ==> (#[trigger] self.entries[j]).0@ != key@,
                None => !has_key(self.named(), key@),
            },
            self.wf() ==> (r.is_some() <==> self@.contains_key(key@)),
            self.wf() && r.is_some() ==> self@[key@] == self.entries[r.unwrap() as int].1,
    {
        let name = key.to_string();
        let mut i: usize = 0;
        while i < self.entries.len()
            invariant
                i <= self.entries.len(),
                name@ == key@,
                forall|j: int| 0 <= j < i ==> (#[trigger] self.entries[j]).0@ != key@,
            decreases self.entries.len() - i,
        {
            if self.entries[i].0 == name {
                proof {
                    assert(self.named()[i as int].0 == key@);
                    if self.wf() {
                        lemma_entry_bound(self.named(), i as int);
                    }
                }
                return Some(i);
            }
            i += 1;
        }
        proof {
            assert forall|j: int| 0 <= j < self.named().len() implies (#[trigger] self.named()[j]).0
                != key@ by {
                assert(self.entries[j].0@ != key@);
            }
        }
        None
    }

    /// Whether a region is stored under `key`.
    pub fn contains_key(&self, key: &str) -> (r: bool)
        ensures
            r == has_key(self.named(), key@),
            r == self@.contains_key(key@),
    {
        let found = self.position(key);
        proof {
            if found.is_some() {
                assert(self.named()[found.unwrap() as int].0 == key@);
            }
        }
        found.is_some()
    }

    /// The region stored under `key`, if there is one.
    pub fn get(&self, key: &str) -> (r: Option<&Region>)
        ensures
            match r {
                Some(region) => self@.contains_key(key@) && exists|i: int|
                    0 <= i < self.entries.len() && (#[trigger] self.entries[i]).0@ == key@
                        && *region == self.entries[i].1,
                None => !self@.contains_key(key@),
            },
            self.wf() && r.is_some() ==> *r.unwrap() == self@[key@],
    {
        match self.position(key) {
            Some(i) => {
                proof {
                    assert(self.named()[i as int].0 == key@);
                }
                Some(&self.entries[i].1)
            },
            None => None,
        }
    }

    /// Stores `region` under `key`. A name that was in use keeps its place
    /// in the order and its former region is returned; a new name goes to
    /// the end.
    pub fn insert(&mut self, key: String, region: Region) -> (r: Option<Region>)
        requires
            old(self).wf(),
        ensures
            final(self).wf(),
            final(self)@ == old(self)@.insert(key@, region),
            match r {
                Some(former) => old(self)@.contains_key(key@) && former == old(self)@[key@]
                    && exists|i: int|
                    0 <= i < old(self).entries.len() && (#[trigger] old(self).entries[i]).0@ == key@
                        && final(self).named() == old(self).named().update(i, (key@, region)),
                None => !old(self)@.contains_key(key@) && final(self).entries@ == old(
                    self,
                ).entries@.push((key, region)),
            },
    {
        match self.position(key.as_str()) {
            Some(i) => {
                proof {
                    assert(self.named()[i as int].0 == key@);
                    lemma_entry_bound(self.named(), i as int);
                    lemma_update_entry(self.named(), i as int, region);
                    assert(self.entries@.update(i as int, (key, region)).map_values(
                        |p: (String, Region)| (p.0@, p.1),
                    ) =~= self.named().update(i as int, (key@, region)));
                }
                let mut slot = (key, region);
                core::mem::swap(&mut self.entries[i], &mut slot);
                Some(slot.1)
            },
            None => {
                proof {
                    lemma_push_entry(self.named(), key@, region);
                    assert(self.entries@.push((key, region)).map_values(
                        |p: (String, Region)| (p.0@, p.1),
                    ) =~= self.named().push((key@, region)));
                }
                self.entries.push((key, region));
                None
            },
        }
    }

    /// Takes out the region stored under `key` and returns it, if there is
    /// one. The other regions keep their order.
    pub fn remove(&mut self, key: &str) -> (r: Option<Region>)
        requires
            old(self).wf(),
        ensures
            final(self).wf(),
            final(self)@ == old(self)@.remove(key@),
            match r {
                Some(region) => old(self)@.contains_key(key@) && region == old(self)@[key@]
                    && exists|i: int|
                    0 <= i < old(self).entries.len() && (#[trigger] old(self).entries[i]).0@ == key@
                        && final(self).entries@ == old(self).entries@.remove(i),
                None => !old(self)@.contains_key(key@) && *final(self) == *old(self),
            },
    {
        match self.position(key) {
            Some(i) => {
                proof {
                    assert(self.named()[i as int].0 == key@);
                    lemma_entry_bound(self.named(), i as int);
                    lemma_remove_entry(self.named(), i as int);
                    assert(self.entries@.remove(i as int).map_values(
                        |p: (String, Region)| (p.0@, p.1),
                    ) =~= self.named().remove(i as int));
                }
                let taken = self.entries.remove(i);
                Some(taken.1)
            },
            None => {
                proof {
                    assert(self@.remove(key@) =~= self@);
                }
                None
            },
        }
    }
}

impl Clone for RegionMap {
    fn clone(&self) -> (r: Self)
        ensures
            r.entries.len() == self.entries.len(),
            forall|i: int|
                #![trigger r.entries[i]]
                0 <= i < r.entries.len() ==> {
                    &&& r.entries[i].0 == self.entries[i].0
                    &&& r.entries[i].1.name == self.entries[i].1.name
                    &&& r.entries[i].1.position == self.entries[i].1.position
                    &&& r.entries[i].1.size == self.entries[i].1.size
                    &&& r.entries[i].1.blocks@ == self.entries[i].1.blocks@
                    &&& crate::palette::views(r.entries[i].1.palette@) == crate::palette::views(
                        self.entries[i].1.palette@,
                    )
                    &&& crate::entity::entity_views(r.entries[i].1.entities@)
                        == crate::entity::entity_views(self.entries[i].1.entities@)
                    &&& r.entries[i].1.block_entities@ == self.entries[i].1.block_entities@
                    &&& self.entries[i].1.wf() ==> r.entries[i].1.wf()
                },
            self.wf() ==> r.wf(),
    {
        let mut entries: Vec<(String, Region)> = Vec::new();
        let mut i: usize = 0;
        while i < self.entries.len()
            invariant
                i <= self.entries.len(),
                entries.len() == i,
                forall|j: int|
                    #![trigger entries[j]]
                    0 <= j < i ==> {
                        &&& entries[j].0 == self.entries[j].0
                        &&& entries[j].1.name == self.entries[j].1.name
                        &&& entries[j].1.position == self.entries[j].1.position
                        &&& entries[j].1.size == self.entries[j].1.size
                        &&& entries[j].1.blocks@ == self.entries[j].1.blocks@
                        &&& crate::palette::views(entries[j].1.palette@) == crate::palette::views(
                            self.entries[j].1.palette@,
                        )
                        &&& crate::entity::entity_views(entries[j].1.entities@)
                            == crate::entity::entity_views(self.entries[j].1.entities@)
                        &&& entries[j].1.block_entities@ == self.entries[j].1.block_entities@
                        &&& self.entries[j].1.wf() ==> entries[j].1.wf()
                    },
            decreases self.entries.len() - i,
        {
            let name = self.entries[i].0.clone();
            let region = self.entries[i].1.clone();
            entries.push((name, region));
            i += 1;
        }
        let r = RegionMap { entries };
        proof {
            if self.wf() {
                assert forall|a: int, b: int| 0 <= a < b < r.named().len() implies (
                #[trigger] r.named()[a]).0 != (#[trigger] r.named()[b]).0 by {
                    assert(r.entries[a].0 == self.entries[a].0);
                    assert(r.entries[b].0 == self.entries[b].0);
                    assert(self.named()[a].0 != self.named()[b].0);
                }
            }
        }
        r
    }
}

} // verus!
