//! The entries of a map as a vector.
use std::collections::{BTreeMap, HashMap};
use vstd::prelude::*;
use vstd::std_specs::btree::increasing_seq;
use vstd::std_specs::cmp::OrdSpec;
use vstd::std_specs::iter::IteratorSpec;

verus! {

/// Whether `entries` lists the entries of `map`, each once.
pub open spec fn lists<V>(entries: Seq<(usize, &V)>, map: Map<usize, V>) -> bool {
    &&& forall|j: int|
        0 <= j < entries.len() ==> map.contains_key((#[trigger] entries[j]).0)
            && map[entries[j].0] == *entries[j].1
    &&& forall|k: usize| #[trigger]
        map.contains_key(k) ==> exists|j: int|
            0 <= j < entries.len() && (#[trigger] entries[j]).0 == k
    &&& forall|i: int, j: int|
        0 <= i < j < entries.len() ==> (#[trigger] entries[i]).0 != (#[trigger] entries[j]).0
}

/// Whether one of the first `n` entries has the key `k`.
pub open spec fn listed<V>(entries: Seq<(usize, &V)>, n: int, k: usize) -> bool {
    exists|j: int| 0 <= j < n && (#[trigger] entries[j]).0 == k
}

/// A sequence of pairs that names each entry of `map`, none twice, lists it.
proof fn lemma_lists<V>(entries: Seq<(usize, &V)>, named: Seq<(&usize, &V)>, map: Map<usize, V>)
    requires
        entries.len() == named.len(),
        forall|j: int|
            0 <= j < entries.len() ==> (#[trigger] entries[j]).0 == *named[j].0 && entries[j].1
                == named[j].1,
        forall|j: int|
            0 <= j < named.len() ==> map.contains_key(*(#[trigger] named[j]).0)
                && map[*named[j].0] == *named[j].1,
        forall|k: usize| #[trigger] map.contains_key(k) ==> named.contains((&k, &map[k])),
        named.no_duplicates(),
    ensures
        lists(entries, map),
{
    assert forall|k: usize| #[trigger] map.contains_key(k) implies exists|j: int|
        0 <= j < entries.len() && (#[trigger] entries[j]).0 == k by {
        let j = choose|j: int| 0 <= j < named.len() && named[j] == (&k, &map[k]);
        assert(entries[j].0 == k);
    }
    assert forall|i: int, j: int| 0 <= i < j < entries.len() implies (#[trigger] entries[i]).0 != (
    #[trigger] entries[j]).0 by {
        assert(named[i] != named[j]);
    }
}

/// The entries of a sorted map, in ascending order of their keys.
pub fn sorted_entries<V>(map: &BTreeMap<usize, V>) -> (entries: Vec<(usize, &V)>)
    ensures
        lists(entries@, map@),
        forall|i: int, j: int|
            0 <= i < j < entries.len() ==> (#[trigger] entries[i]).0 < (#[trigger] entries[j]).0,
{
    let mut entries: Vec<(usize, &V)> = Vec::new();
    let iter = map.iter();
    let ghost named = iter.remaining();
    let ghost keys = named.map_values(|kv: (&usize, &V)| *kv.0);
    for (k, v) in it: iter
        invariant
            it.seq() == named,
            entries.len() == it.index(),
            forall|j: int|
                0 <= j < entries.len() ==> (#[trigger] entries[j]).0 == *named[j].0
                    && entries[j].1 == named[j].1,
    {
        entries.push((*k, v));
    }
    proof {
        lemma_lists(entries@, named, map@);
        assert(increasing_seq(keys));
        assert forall|i: int, j: int| 0 <= i < j < entries.len() implies (#[trigger] entries[i]).0
            < (#[trigger] entries[j]).0 by {
            assert(keys[i].cmp_spec(&keys[j]) is Less);
        }
    }
    entries
}

/// The entries of a map, in no particular order.
pub fn entries_of<V>(map: &HashMap<usize, V>) -> (entries: Vec<(usize, &V)>)
    ensures
        lists(entries@, map@),
{
    let mut entries: Vec<(usize, &V)> = Vec::new();
    let iter = map.iter();
    let ghost named = iter.remaining();
    for (k, v) in it: iter
        invariant
            it.seq() == named,
            entries.len() == it.index(),
            forall|j: int|
                0 <= j < entries.len() ==> (#[trigger] entries[j]).0 == *named[j].0
                    && entries[j].1 == named[j].1,
    {
        entries.push((*k, v));
    }
    proof {
        lemma_lists(entries@, named, map@);
    }
    entries
}

} // verus!
