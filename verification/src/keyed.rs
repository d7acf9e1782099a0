//! Maps from string keys stored as lists of `(key, value)` entries, each key
//! at most once. Every string-keyed map of the library (alerts, configs,
//! parameters, subscribers, routes, sections, labels, room histories,
//! energies) is held this way: a `HashMap` keyed by `String` (or by a
//! derived-`Hash` type) yields no usable facts about its contents in these
//! proofs, while a list with distinct keys and an explicit map view does.

use vstd::prelude::*;

verus! {

/// The entries as a map; a later entry for a key overrides an earlier one.
pub open spec fn entry_map<V: View>(entries: Seq<(String, V)>) -> Map<Seq<char>, V::V>
    decreases entries.len(),
{
    if entries.len() == 0 {
        Map::empty()
    } else {
        entry_map(entries.drop_last()).insert(entries.last().0@, entries.last().1@)
    }
}

/// No key occurs twice.
pub open spec fn keys_distinct<V>(entries: Seq<(String, V)>) -> bool {
    forall|i: int, j: int|
        0 <= i < entries.len() && 0 <= j < entries.len() && i != j ==> (#[trigger] entries[i]).0@
            != (#[trigger] entries[j]).0@
}

/// Set `key` to `value`: replace the entry of that key, or append one.
pub fn set_entry<V: View>(entries: &mut Vec<(String, V)>, key: String, value: V)
    requires
        keys_distinct(old(entries)@),
    ensures
        keys_distinct(final(entries)@),
        entry_map(final(entries)@) == entry_map(old(entries)@).insert(key@, value@),
{
    let ghost before = entries@;
    let mut i: usize = 0;
    while i < entries.len()
        invariant
            i <= entries.len(),
            entries@ == before,
            before == old(entries)@,
            keys_distinct(before),
            forall|j: int| 0 <= j < i ==> (#[trigger] entries@[j]).0@ != key@,
        decreases entries.len() - i,
    {
        if entries[i].0 == key {
            let ghost k = key@;
            let ghost v = value@;
            entries.set(i, (key, value));
            proof {
                assert(entries@[i as int].0@ == k);
                assert(entries@[i as int].1@ == v);
                lemma_entry_map_replace(before, i as int, entries@[i as int]);
                assert(entries@ =~= before.update(i as int, entries@[i as int]));
                assert forall|a: int, b: int|
                    0 <= a < entries@.len() && 0 <= b < entries@.len() && a != b implies (
                #[trigger] entries@[a]).0@ != (#[trigger] entries@[b]).0@ by {
                    if a != i {
                        assert(entries@[a] == before[a]);
                    }
                    if b != i {
                        assert(entries@[b] == before[b]);
                    }
                }
            }
            return;
        }
        i = i + 1;
    }
    entries.push((key, value));
    proof {
        assert(entries@.drop_last() =~= before);
        assert forall|a: int, b: int|
            0 <= a < entries@.len() && 0 <= b < entries@.len() && a != b implies (
        #[trigger] entries@[a]).0@ != (#[trigger] entries@[b]).0@ by {
            if a < before.len() {
                assert(entries@[a] == before[a]);
            }
            if b < before.len() {
                assert(entries@[b] == before[b]);
            }
        }
    }
}

/// Replacing the entry at `i` by one with the same key sets that key.
pub proof fn lemma_entry_map_replace<V: View>(entries: Seq<(String, V)>, i: int, entry: (String, V))
    requires
        0 <= i < entries.len(),
        keys_distinct(entries),
        entries[i].0@ == entry.0@,
    ensures
        entry_map(entries.update(i, entry)) == entry_map(entries).insert(entry.0@, entry.1@),
    decreases entries.len(),
{
    let updated = entries.update(i, entry);
    if i == entries.len() - 1 {
        assert(updated.drop_last() =~= entries.drop_last());
        lemma_entry_map_absent(entries.drop_last(), entry.0@);
        assert(entry_map(updated) =~= entry_map(entries).insert(entry.0@, entry.1@));
    } else {
        let shorter = entries.drop_last();
        assert forall|a: int, b: int|
            0 <= a < shorter.len() && 0 <= b < shorter.len() && a != b implies (
        #[trigger] shorter[a]).0@ != (#[trigger] shorter[b]).0@ by {
            assert(shorter[a] == entries[a]);
            assert(shorter[b] == entries[b]);
        }
        lemma_entry_map_replace(shorter, i, entry);
        assert(updated.drop_last() =~= shorter.update(i, entry));
        assert(updated.last() == entries.last());
        assert(entries.last().0@ != entry.0@);
        assert(entry_map(updated) =~= entry_map(entries).insert(entry.0@, entry.1@));
    }
}

/// A key that no entry has is not in the map.
pub proof fn lemma_entry_map_absent<V: View>(entries: Seq<(String, V)>, key: Seq<char>)
    requires
        forall|j: int| 0 <= j < entries.len() ==> (#[trigger] entries[j]).0@ != key,
    ensures
        !entry_map(entries).contains_key(key),
    decreases entries.len(),
{
    if entries.len() > 0 {
        lemma_entry_map_absent(entries.drop_last(), key);
    }
}

/// Entries with the same keys and values, position by position, make the
/// same map.
pub proof fn lemma_entry_map_views<V: View>(a: Seq<(String, V)>, b: Seq<(String, V)>)
    requires
        a.len() == b.len(),
        forall|i: int| 0 <= i < a.len() ==> (#[trigger] a[i]).0@ == b[i].0@ && a[i].1@ == b[i].1@,
    ensures
        entry_map(a) == entry_map(b),
    decreases a.len(),
{
    if a.len() > 0 {
        lemma_entry_map_views(a.drop_last(), b.drop_last());
    }
}

/// The map of the entries has exactly their keys, and each key maps to the
/// value of its last entry.
pub proof fn law_entry_map_last<V: View>(entries: Seq<(String, V)>, i: int)
    ensures
        entry_map(entries).dom() == entries.map_values(|e: (String, V)| e.0@).to_set(),
        0 <= i < entries.len() && (forall|j: int|
            i < j < entries.len() ==> (#[trigger] entries[j]).0@ != entries[i].0@) ==> entry_map(
            entries,
        )[entries[i].0@] == entries[i].1@,
    decreases entries.len(),
{
    if entries.len() > 0 {
        let front = entries.drop_last();
        law_entry_map_last(front, i);
        let keys = entries.map_values(|e: (String, V)| e.0@);
        let fkeys = front.map_values(|e: (String, V)| e.0@);
        assert forall|k: Seq<char>| keys.to_set().contains(k) <==> fkeys.to_set().insert(entries.last().0@).contains(k) by {
            if keys.contains(k) {
                let j = choose|j: int| 0 <= j < keys.len() && keys[j] == k;
                if j < front.len() {
                    assert(fkeys[j] == k);
                }
            }
            if fkeys.contains(k) {
                let j = choose|j: int| 0 <= j < fkeys.len() && fkeys[j] == k;
                assert(keys[j] == k);
            }
            assert(keys[entries.len() - 1] == entries.last().0@);
        }
        assert(entry_map(entries).dom() =~= keys.to_set());
        if 0 <= i < entries.len() - 1 && (forall|j: int|
            i < j < entries.len() ==> (#[trigger] entries[j]).0@ != entries[i].0@) {
            assert(front[i] == entries[i]);
            assert forall|j: int| i < j < front.len() implies (#[trigger] front[j]).0@ != front[i].0@ by {
                assert(front[j] == entries[j]);
            }
            assert(entries[entries.len() - 1].0@ != entries[i].0@);
        }
    } else {
        assert(entry_map(entries).dom() =~= entries.map_values(|e: (String, V)| e.0@).to_set());
    }
}

} // verus!
