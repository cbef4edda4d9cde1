//! Association lists: sequences of key/value entries read as maps.

use vstd::prelude::*;

verus! {

/// The map that a list of entries gives, each key to its value.
pub open spec fn entries_map<K, V>(entries: Seq<(K, V)>) -> Map<K, V>
    decreases entries.len(),
{
    if entries.len() == 0 {
        Map::empty()
    } else {
        entries_map(entries.drop_last()).insert(entries.last().0, entries.last().1)
    }
}

/// Whether no key occurs twice among the entries.
pub open spec fn keys_unique<K, V>(entries: Seq<(K, V)>) -> bool {
    forall|i: int, j: int| 0 <= i < j < entries.len() ==> entries[i].0 != entries[j].0
}

/// In entries without repeated keys, each entry's key maps to its value.
pub proof fn lemma_entries_map_at<K, V>(entries: Seq<(K, V)>, i: int)
    requires
        keys_unique(entries),
        0 <= i < entries.len(),
    ensures
        entries_map(entries).dom().contains(entries[i].0),
        entries_map(entries)[entries[i].0] == entries[i].1,
    decreases entries.len(),
{
    if i < entries.len() - 1 {
        lemma_entries_map_at(entries.drop_last(), i);
        assert(entries[i].0 != entries.last().0);
    }
}

/// A key that no entry has is not mapped.
pub proof fn lemma_entries_map_absent<K, V>(entries: Seq<(K, V)>, k: K)
    requires
        forall|i: int| 0 <= i < entries.len() ==> entries[i].0 != k,
    ensures
        !entries_map(entries).dom().contains(k),
    decreases entries.len(),
{
    if entries.len() > 0 {
        lemma_entries_map_absent(entries.drop_last(), k);
    }
}

/// Replacing the value of an entry replaces it in the map.
pub proof fn lemma_entries_map_update<K, V>(entries: Seq<(K, V)>, i: int, v: V)
    requires
        keys_unique(entries),
        0 <= i < entries.len(),
    ensures
        entries_map(entries.update(i, (entries[i].0, v))) == entries_map(entries).insert(entries[i].0, v),
    decreases entries.len(),
{
    let u = entries.update(i, (entries[i].0, v));
    if i == entries.len() - 1 {
        assert(u.drop_last() =~= entries.drop_last());
        lemma_entries_map_absent(entries.drop_last(), entries[i].0);
        assert(entries_map(u) =~= entries_map(entries).insert(entries[i].0, v));
    } else {
        lemma_entries_map_update(entries.drop_last(), i, v);
        assert(u.drop_last() =~= entries.drop_last().update(i, (entries[i].0, v)));
        assert(entries[i].0 != entries.last().0);
        assert(entries_map(u) =~= entries_map(entries).insert(entries[i].0, v));
    }
}

} // verus!
