//! How a list of keyed slots stands for a map.

use vstd::prelude::*;

verus! {

/// Whether no key occurs twice.
pub open spec fn distinct(keys: Seq<Seq<u8>>) -> bool {
    forall|i: int, j: int| 0 <= i < j < keys.len() ==> keys[i] != keys[j]
}

/// Whether `key` is one of `keys`.
pub open spec fn holds(keys: Seq<Seq<u8>>, key: Seq<u8>) -> bool {
    exists|i: int| 0 <= i < keys.len() && keys[i] == key
}

/// A position of `key` among `keys`.
pub open spec fn slot_of(keys: Seq<Seq<u8>>, key: Seq<u8>) -> int {
    choose|i: int| 0 <= i < keys.len() && keys[i] == key
}

/// The map that holds `entries[i]` under `keys[i]`.
pub open spec fn store_of<T>(keys: Seq<Seq<u8>>, entries: Seq<T>) -> Map<Seq<u8>, T> {
    Map::new(|key: Seq<u8>| holds(keys, key), |key: Seq<u8>| entries[slot_of(keys, key)])
}

/// With distinct keys, each slot is found again under its key.
pub proof fn lemma_slot_found<T>(keys: Seq<Seq<u8>>, entries: Seq<T>, i: int)
    requires
        distinct(keys),
        keys.len() == entries.len(),
        0 <= i < keys.len(),
    ensures
        holds(keys, keys[i]),
        slot_of(keys, keys[i]) == i,
        store_of(keys, entries).contains_key(keys[i]),
        store_of(keys, entries)[keys[i]] == entries[i],
{
    let j = slot_of(keys, keys[i]);
    assert(0 <= j < keys.len() && keys[j] == keys[i]);
    if j < i {
        assert(keys[j] != keys[i]);
    } else if i < j {
        assert(keys[i] != keys[j]);
    }
}

/// A key that is held sits in some slot.
pub proof fn lemma_held_slot(keys: Seq<Seq<u8>>, key: Seq<u8>)
    requires
        holds(keys, key),
    ensures
        0 <= slot_of(keys, key) < keys.len(),
        keys[slot_of(keys, key)] == key,
{
}

/// Replacing the entry of one slot replaces it in the map.
pub proof fn lemma_store_update<T>(keys: Seq<Seq<u8>>, entries: Seq<T>, i: int, entry: T)
    requires
        distinct(keys),
        keys.len() == entries.len(),
        0 <= i < keys.len(),
    ensures
        store_of(keys, entries.update(i, entry)) == store_of(keys, entries).insert(keys[i], entry),
{
    let before = store_of(keys, entries);
    let after = store_of(keys, entries.update(i, entry));
    lemma_slot_found(keys, entries, i);
    assert forall|key: Seq<u8>| #[trigger] after.contains_key(key) implies after[key]
        == before.insert(keys[i], entry)[key] by {
        lemma_held_slot(keys, key);
        let j = slot_of(keys, key);
        lemma_slot_found(keys, entries, j);
    }
    assert(after =~= before.insert(keys[i], entry));
}

/// A new slot under a fresh key adds its entry to the map.
pub proof fn lemma_store_push<T>(keys: Seq<Seq<u8>>, entries: Seq<T>, key: Seq<u8>, entry: T)
    requires
        distinct(keys),
        keys.len() == entries.len(),
        !holds(keys, key),
    ensures
        distinct(keys.push(key)),
        store_of(keys.push(key), entries.push(entry)) == store_of(keys, entries).insert(key, entry),
{
    let keys2 = keys.push(key);
    let entries2 = entries.push(entry);
    assert forall|i: int, j: int| 0 <= i < j < keys2.len() implies keys2[i] != keys2[j] by {
        if j == keys.len() {
            assert(keys[i] == keys2[i]);
        }
    }
    let before = store_of(keys, entries);
    let after = store_of(keys2, entries2);
    let target = before.insert(key, entry);
    assert forall|k: Seq<u8>| after.contains_key(k) <==> target.contains_key(k) by {
        if holds(keys2, k) {
            let j = slot_of(keys2, k);
            if j < keys.len() {
                assert(keys[j] == k);
            }
        }
        if holds(keys, k) {
            let j = slot_of(keys, k);
            assert(keys2[j] == k);
        }
        if k == key {
            assert(keys2[keys.len() as int] == k);
        }
    }
    assert forall|k: Seq<u8>| #[trigger] after.contains_key(k) implies after[k] == target[k] by {
        let j = slot_of(keys2, k);
        lemma_slot_found(keys2, entries2, j);
        if j < keys.len() {
            assert(keys[j] == k);
            lemma_slot_found(keys, entries, j);
        }
    }
    assert(after =~= target);
}

/// Moving the last slot into slot `i` and dropping the last removes the entry
/// that slot `i` held.
pub proof fn lemma_store_swap_remove<T>(keys: Seq<Seq<u8>>, entries: Seq<T>, i: int)
    requires
        distinct(keys),
        keys.len() == entries.len(),
        0 <= i < keys.len(),
    ensures
        distinct(keys.update(i, keys.last()).drop_last()),
        store_of(keys.update(i, keys.last()).drop_last(), entries.update(i, entries.last()).drop_last())
            == store_of(keys, entries).remove(keys[i]),
{
    let keys2 = keys.update(i, keys.last()).drop_last();
    let entries2 = entries.update(i, entries.last()).drop_last();
    let last = keys.len() - 1;
    assert forall|a: int, b: int| 0 <= a < b < keys2.len() implies keys2[a] != keys2[b] by {
        let a0 = if a == i {
            last
        } else {
            a
        };
        let b0 = if b == i {
            last
        } else {
            b
        };
        assert(keys2[a] == keys[a0] && keys2[b] == keys[b0]);
        if a0 < b0 {
            assert(keys[a0] != keys[b0]);
        } else {
            assert(keys[b0] != keys[a0]);
        }
    }
    let before = store_of(keys, entries);
    let after = store_of(keys2, entries2);
    let target = before.remove(keys[i]);
    assert forall|k: Seq<u8>| after.contains_key(k) <==> target.contains_key(k) by {
        if holds(keys2, k) {
            let j = slot_of(keys2, k);
            let j0 = if j == i {
                last
            } else {
                j
            };
            assert(keys[j0] == k);
            if j0 < i {
                assert(keys[j0] != keys[i]);
            } else if i < j0 {
                assert(keys[i] != keys[j0]);
            }
        }
        if holds(keys, k) && k != keys[i] {
            let j = slot_of(keys, k);
            if j == last {
                assert(keys2[i] == k);
            } else {
                assert(keys2[j] == k);
            }
        }
    }
    assert forall|k: Seq<u8>| #[trigger] after.contains_key(k) implies after[k] == target[k] by {
        let j = slot_of(keys2, k);
        lemma_slot_found(keys2, entries2, j);
        let j0 = if j == i {
            last
        } else {
            j
        };
        assert(keys[j0] == k);
        lemma_slot_found(keys, entries, j0);
    }
    assert(after =~= target);
}

/// The map of a list of slots has as many entries as there are slots.
pub proof fn lemma_store_len<T>(keys: Seq<Seq<u8>>, entries: Seq<T>)
    requires
        distinct(keys),
        keys.len() == entries.len(),
    ensures
        store_of(keys, entries).dom().finite(),
        store_of(keys, entries).dom().len() == keys.len(),
{
    assert(store_of(keys, entries).dom() =~= keys.to_set());
    vstd::seq_lib::seq_to_set_is_finite(keys);
    assert(keys.no_duplicates());
    keys.unique_seq_to_set();
}

} // verus!
