//! Association lists: sequences of `(key, value)` pairs in which no key
//! occurs twice, and the maps that they stand for.

use vstd::prelude::*;

verus! {



/// No two entries of `s` share a key.
pub open spec fn distinct_keys<K, V>(s: Seq<(K, V)>) -> bool {
    forall|i: int, j: int| 0 <= i < j < s.len() ==> (#[trigger] s[i]).0 != (#[trigger] s[j]).0
}

/// `k` is the key of some entry of `s`.
pub open spec fn has_key<K, V>(s: Seq<(K, V)>, k: K) -> bool {
    exists|i: int| 0 <= i < s.len() && (#[trigger] s[i]).0 == k
}

/// The map that a sequence of entries stands for: the keys of the entries,
/// each bound to the value of the entry that carries it.
pub open spec fn entries_to_map<K, V>(s: Seq<(K, V)>) -> Map<K, V> {
    Map::new(
        |k: K| has_key(s, k),
        |k: K| s[choose|i: int| 0 <= i < s.len() && (#[trigger] s[i]).0 == k].1,
    )
}

/// Every entry of a sequence with distinct keys is bound in its map.
pub proof fn lemma_entry_bound<K, V>(s: Seq<(K, V)>, i: int)
    requires
        distinct_keys(s),
        0 <= i < s.len(),
    ensures
        entries_to_map(s).contains_key(s[i].0),
        entries_to_map(s)[s[i].0] == s[i].1,
{
    let k = s[i].0;
    assert(has_key(s, k));
    let j = choose|j: int| 0 <= j < s.len() && (#[trigger] s[j]).0 == k;
    assert(j == i) by {
        if j < i {
            assert(s[j].0 != s[i].0);
        } else if i < j {
            assert(s[i].0 != s[j].0);
        }
    }
}

/// The map of a sequence with distinct keys has as many keys as the sequence
/// has entries.
pub proof fn lemma_map_len<K, V>(s: Seq<(K, V)>)
    requires
        distinct_keys(s),
    ensures
        entries_to_map(s).dom().finite(),
        entries_to_map(s).dom().len() == s.len(),
{
    let keys = s.map_values(|p: (K, V)| p.0);
    assert(keys.no_duplicates()) by {
        assert forall|i: int, j: int| 0 <= i < keys.len() && 0 <= j < keys.len() && i != j implies keys[i]
            != keys[j] by {
            if i < j {
                assert(s[i].0 != s[j].0);
            } else {
                assert(s[j].0 != s[i].0);
            }
        }
    }
    assert(keys.to_set() =~= entries_to_map(s).dom()) by {
        assert forall|k: K| keys.to_set().contains(k) <==> entries_to_map(s).dom().contains(
            k,
        ) by {
            if keys.to_set().contains(k) {
                let i = choose|i: int| 0 <= i < keys.len() && keys[i] == k;
                assert(s[i].0 == k);
            }
            if has_key(s, k) {
                let i = choose|i: int| 0 <= i < s.len() && (#[trigger] s[i]).0 == k;
                assert(keys[i] == k);
            }
        }
    }
    vstd::seq_lib::seq_to_set_is_finite(keys);
    keys.unique_seq_to_set();
}

/// Appending an entry with a fresh key binds that key and keeps the rest.
pub proof fn lemma_push_entry<K, V>(s: Seq<(K, V)>, k: K, v: V)
    requires
        distinct_keys(s),
        !has_key(s, k),
    ensures
        distinct_keys(s.push((k, v))),
        entries_to_map(s.push((k, v))) == entries_to_map(s).insert(k, v),
{
    let t = s.push((k, v));
    assert(distinct_keys(t)) by {
        assert forall|i: int, j: int| 0 <= i < j < t.len() implies (#[trigger] t[i]).0 != (
        #[trigger] t[j]).0 by {
            if j < s.len() {
                assert(s[i].0 != s[j].0);
            } else {
                assert(t[i] == s[i]);
            }
        }
    }
    assert(entries_to_map(t) =~= entries_to_map(s).insert(k, v)) by {
        assert forall|q: K| entries_to_map(t).contains_key(q) <==> entries_to_map(s).insert(
            k,
            v,
        ).contains_key(q) by {
            if has_key(t, q) {
                let i = choose|i: int| 0 <= i < t.len() && (#[trigger] t[i]).0 == q;
                if i < s.len() {
                    assert(s[i].0 == q);
                }
            }
            if has_key(s, q) {
                let i = choose|i: int| 0 <= i < s.len() && (#[trigger] s[i]).0 == q;
                assert(t[i].0 == q);
            }
            if q == k {
                assert(t[s.len() as int].0 == q);
            }
        }
        assert forall|q: K| entries_to_map(t).contains_key(q) implies entries_to_map(t)[q]
            == entries_to_map(s).insert(k, v)[q] by {
            let i = choose|i: int| 0 <= i < t.len() && (#[trigger] t[i]).0 == q;
            lemma_entry_bound(t, i);
            if i < s.len() {
                assert(t[i] == s[i]);
                lemma_entry_bound(s, i);
            }
        }
    }
}

/// Replacing the value of an entry rebinds its key and keeps the rest.
pub proof fn lemma_update_entry<K, V>(s: Seq<(K, V)>, i: int, v: V)
    requires
        distinct_keys(s),
        0 <= i < s.len(),
    ensures
        distinct_keys(s.update(i, (s[i].0, v))),
        entries_to_map(s.update(i, (s[i].0, v))) == entries_to_map(s).insert(s[i].0, v),
{
    let k = s[i].0;
    let t = s.update(i, (k, v));
    assert(distinct_keys(t)) by {
        assert forall|a: int, b: int| 0 <= a < b < t.len() implies (#[trigger] t[a]).0 != (
        #[trigger] t[b]).0 by {
            assert(s[a].0 != s[b].0);
        }
    }
    assert(entries_to_map(t) =~= entries_to_map(s).insert(k, v)) by {
        assert forall|q: K| entries_to_map(t).contains_key(q) <==> entries_to_map(s).insert(
            k,
            v,
        ).contains_key(q) by {
            if has_key(t, q) {
                let j = choose|j: int| 0 <= j < t.len() && (#[trigger] t[j]).0 == q;
                assert(s[j].0 == q);
            }
            if has_key(s, q) {
                let j = choose|j: int| 0 <= j < s.len() && (#[trigger] s[j]).0 == q;
                assert(t[j].0 == q);
            }
            if q == k {
                assert(t[i].0 == q);
            }
        }
        assert forall|q: K| entries_to_map(t).contains_key(q) implies entries_to_map(t)[q]
            == entries_to_map(s).insert(k, v)[q] by {
            let j = choose|j: int| 0 <= j < t.len() && (#[trigger] t[j]).0 == q;
            lemma_entry_bound(t, j);
            if j != i {
                assert(t[j] == s[j]);
                lemma_entry_bound(s, j);
                if j < i {
                    assert(s[j].0 != s[i].0);
                } else {
                    assert(s[i].0 != s[j].0);
                }
            }
        }
    }
}

/// Taking an entry out unbinds its key and keeps the rest.
pub proof fn lemma_remove_entry<K, V>(s: Seq<(K, V)>, i: int)
    requires
        distinct_keys(s),
        0 <= i < s.len(),
    ensures
        distinct_keys(s.remove(i)),
        entries_to_map(s.remove(i)) == entries_to_map(s).remove(s[i].0),
{
    let k = s[i].0;
    let t = s.remove(i);
    assert forall|a: int| 0 <= a < t.len() implies #[trigger] t[a] == s[if a < i {
        a
    } else {
        a + 1
    }] by {}
    assert(distinct_keys(t)) by {
        assert forall|a: int, b: int| 0 <= a < b < t.len() implies (#[trigger] t[a]).0 != (
        #[trigger] t[b]).0 by {
            let a2 = if a < i { a } else { a + 1 };
            let b2 = if b < i { b } else { b + 1 };
            assert(t[a] == s[a2]);
            assert(t[b] == s[b2]);
            assert(s[a2].0 != s[b2].0);
        }
    }
    assert(entries_to_map(t) =~= entries_to_map(s).remove(k)) by {
        assert forall|q: K| entries_to_map(t).contains_key(q) <==> entries_to_map(s).remove(
            k,
        ).contains_key(q) by {
            if has_key(t, q) {
                let j = choose|j: int| 0 <= j < t.len() && (#[trigger] t[j]).0 == q;
                let j2 = if j < i { j } else { j + 1 };
                assert(t[j] == s[j2]);
                assert(s[j2].0 == q);
                if j2 < i {
                    assert(s[j2].0 != s[i].0);
                } else {
                    assert(s[i].0 != s[j2].0);
                }
            }
            if has_key(s, q) && q != k {
                let j = choose|j: int| 0 <= j < s.len() && (#[trigger] s[j]).0 == q;
                let j2 = if j < i { j } else { j - 1 };
                assert(t[j2] == s[j]);
                assert(t[j2].0 == q);
            }
        }
        assert forall|q: K| entries_to_map(t).contains_key(q) implies entries_to_map(t)[q]
            == entries_to_map(s).remove(k)[q] by {
            let j = choose|j: int| 0 <= j < t.len() && (#[trigger] t[j]).0 == q;
            let j2 = if j < i { j } else { j + 1 };
            assert(t[j] == s[j2]);
            lemma_entry_bound(t, j);
            lemma_entry_bound(s, j2);
        }
    }
}


} // verus!
