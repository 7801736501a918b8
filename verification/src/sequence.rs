//! What holds of tuples and vectors, proved over the model of a backend.

use crate::counting::{
    balanced, closed, lemma_references_insert_new, lemma_references_recount, names, references,
};
use crate::error::Error;
use crate::index::{law_number_of_path, path_of, IndexSelection};
use crate::laws::{
    held_after_set, holds_root, law_closed_store_reads, law_get_after_set, law_set_keeps_counts,
    law_set_leaves_others, lemma_empties_stored, lemma_lookup_extends, lemma_lookup_within,
    lemma_planted_extends, lemma_set_settles, parted,
};
use crate::order::forked;
use crate::scalar::number_leaf;
use crate::store::{resolvable, with_empties, Entry, Store, PINNED};
use crate::tree::{chosen, lookup, planted, set_outcome};
use crate::tuple::{
    capacity, leaf_path, lemma_capacity_from_grows, lemma_leaf_path_len, levels, tuple_get_outcome,
    tuple_push_outcome, tuple_set_outcome, TupleView,
};
use crate::value::{blank_leaf, empty_node, Construct, ValueView};
use crate::vec::{vec_pop_outcome, vec_push_outcome, vec_set_outcome, vec_synced, VecView};
use vstd::multiset::Multiset;
use vstd::prelude::*;

verus! {

/// Get-after-set on a tuple: after `set(i, bytes)` has succeeded, `get(i)`
/// returns the bytes.
pub proof fn law_tuple_get_after_set<C: Construct>(
    store: Store,
    held: Multiset<Seq<u8>>,
    tuple: TupleView,
    i: nat,
    bytes: Seq<u8>,
    owned: bool,
)
    requires
        owned ==> balanced(store, held) && holds_root(held, tuple.root, owned),
        tuple_set_outcome::<C>(store, tuple, i, bytes, owned) is Ok,
    ensures
        tuple_get_outcome(
            tuple_set_outcome::<C>(store, tuple, i, bytes, owned)->Ok_0.0,
            tuple_set_outcome::<C>(store, tuple, i, bytes, owned)->Ok_0.1,
            i,
        ) == Ok::<Seq<u8>, Error>(bytes),
        tuple_set_outcome::<C>(store, tuple, i, bytes, owned)->Ok_0.1.len == tuple.len,
{
    law_get_after_set::<C>(
        store,
        held,
        tuple.root,
        leaf_path(tuple.len, i),
        ValueView::End(bytes),
        owned,
    );
}

/// Two paths of one length that differ part ways.
pub proof fn lemma_different_paths_fork(first: Seq<IndexSelection>, second: Seq<IndexSelection>)
    requires
        first.len() == second.len(),
        first != second,
    ensures
        forked(first, second),
    decreases first.len(),
{
    if first.len() == 0 {
        assert(first =~= second);
    } else if first[0] == second[0] {
        if first.drop_first() == second.drop_first() {
            assert(first =~= seq![first[0]] + first.drop_first());
            assert(second =~= seq![second[0]] + second.drop_first());
        }
        lemma_different_paths_fork(first.drop_first(), second.drop_first());
    }
}

/// A write on a path cannot show in a read on a path that parts ways with it,
/// where the read finds a value.
pub proof fn lemma_found_is_parted<C: Construct>(
    store: Store,
    node: ValueView,
    written: Seq<IndexSelection>,
    read: Seq<IndexSelection>,
)
    requires
        forked(written, read),
        lookup(store, node, read) is Ok,
        lookup(store, node, read)->Ok_0 is Some,
    ensures
        parted::<C>(store, node, written, read),
    decreases written.len(),
{
    match node {
        ValueView::End(_) => {},
        ValueView::Intermediate(key) => {
            if written[0] == read[0] {
                lemma_found_is_parted::<C>(
                    store,
                    chosen(store[key].left, store[key].right, written[0]),
                    written.drop_first(),
                    read.drop_first(),
                );
            }
        },
    }
}

/// The paths to two different leaves of a tuple part ways.
pub proof fn lemma_leaf_paths_fork(len: nat, i: nat, j: nat)
    requires
        i < capacity(len),
        j < capacity(len),
        i != j,
    ensures
        forked(leaf_path(len, i), leaf_path(len, j)),
{
    lemma_leaf_path_len(len, i);
    lemma_leaf_path_len(len, j);
    lemma_capacity_from_grows(1, len);
    law_number_of_path(capacity(len) + i);
    law_number_of_path(capacity(len) + j);
    lemma_different_paths_fork(leaf_path(len, i), leaf_path(len, j));
}

/// Non-interference on a tuple: a `set(i, bytes)` that succeeds changes no
/// `get(j)` that succeeded before, for `j` other than `i`.
pub proof fn law_tuple_set_leaves_others<C: Construct>(
    store: Store,
    held: Multiset<Seq<u8>>,
    tuple: TupleView,
    i: nat,
    j: nat,
    bytes: Seq<u8>,
    owned: bool,
)
    requires
        owned ==> balanced(store, held) && holds_root(held, tuple.root, owned),
        tuple_set_outcome::<C>(store, tuple, i, bytes, owned) is Ok,
        tuple_get_outcome(store, tuple, j) is Ok,
        i != j,
    ensures
        tuple_get_outcome(
            tuple_set_outcome::<C>(store, tuple, i, bytes, owned)->Ok_0.0,
            tuple_set_outcome::<C>(store, tuple, i, bytes, owned)->Ok_0.1,
            j,
        ) == tuple_get_outcome(store, tuple, j),
{
    lemma_capacity_from_grows(1, tuple.len);
    lemma_leaf_paths_fork(tuple.len, i, j);
    lemma_found_is_parted::<C>(store, tuple.root, leaf_path(tuple.len, i), leaf_path(tuple.len, j));
    law_set_leaves_others::<C>(
        store,
        held,
        tuple.root,
        leaf_path(tuple.len, i),
        leaf_path(tuple.len, j),
        ValueView::End(bytes),
        owned,
    );
}

/// In a closed store, what a read finds below a node that the store can
/// resolve can be resolved too.
pub proof fn lemma_found_is_resolvable(store: Store, node: ValueView, path: Seq<IndexSelection>)
    requires
        closed(store),
        resolvable(store, node),
        lookup(store, node, path) is Ok,
        lookup(store, node, path)->Ok_0 is Some,
    ensures
        resolvable(store, lookup(store, node, path)->Ok_0->Some_0),
    decreases path.len(),
{
    if path.len() > 0 {
        match node {
            ValueView::End(_) => {},
            ValueView::Intermediate(key) => {
                lemma_found_is_resolvable(
                    store,
                    chosen(store[key].left, store[key].right, path[0]),
                    path.drop_first(),
                );
            },
        }
    }
}

/// A `set` that succeeds changes no read below a node that stands in the tree
/// after the `set`, where the read found every inner node on its path before.
pub proof fn lemma_set_keeps_below<C: Construct>(
    store: Store,
    held: Multiset<Seq<u8>>,
    root: ValueView,
    path: Seq<IndexSelection>,
    value: ValueView,
    owned: bool,
    place: Seq<IndexSelection>,
    node: ValueView,
    below: Seq<IndexSelection>,
)
    requires
        owned ==> balanced(store, held) && holds_root(held, root, owned),
        set_outcome::<C>(store, root, path, value, owned) is Ok,
        path.len() > 0,
        lookup(
            set_outcome::<C>(store, root, path, value, owned)->Ok_0.0,
            set_outcome::<C>(store, root, path, value, owned)->Ok_0.1,
            place,
        ) == Ok::<Option<ValueView>, Error>(Some(node)),
        lookup(store, node, below) is Ok,
    ensures
        lookup(set_outcome::<C>(store, root, path, value, owned)->Ok_0.0, node, below) == lookup(
            store,
            node,
            below,
        ),
{
    let (after, top) = set_outcome::<C>(store, root, path, value, owned)->Ok_0;
    let grown = planted::<C>(store, root, path, value)->Ok_0.0;
    lemma_planted_extends::<C>(store, root, path, value);
    lemma_lookup_extends(store, grown, node, below);
    if owned {
        lemma_set_settles::<C>(store, held, root, path, value, owned);
        lemma_found_is_resolvable(after, top, place);
        lemma_lookup_within(after, grown, node, below);
    }
}

/// Writing the root of the leaves and their number below the root of a vector
/// changes no read below the root of the leaves.
pub proof fn lemma_synced_keeps_items<C: Construct>(
    store: Store,
    held: Multiset<Seq<u8>>,
    root: ValueView,
    items: TupleView,
    owned: bool,
    path: Seq<IndexSelection>,
)
    requires
        owned ==> balanced(store, held) && holds_root(held, root, owned),
        vec_synced::<C>(store, root, items, owned) is Ok,
        lookup(store, items.root, path) is Ok,
    ensures
        lookup(vec_synced::<C>(store, root, items, owned)->Ok_0.0, items.root, path) == lookup(
            store,
            items.root,
            path,
        ),
{
    broadcast use vstd::multiset::group_multiset_axioms;

    let left = path_of(2);
    let right = path_of(3);
    assert(left =~= seq![IndexSelection::Left]) by {
        reveal_with_fuel(path_of, 3);
    }
    assert(right =~= seq![IndexSelection::Right]) by {
        reveal_with_fuel(path_of, 3);
    }
    // The root of the leaves is written to the left of the root of the vector.
    let (second, half) = set_outcome::<C>(store, root, left, items.root, owned)->Ok_0;
    law_get_after_set::<C>(store, held, root, left, items.root, owned);
    lemma_set_keeps_below::<C>(store, held, root, left, items.root, owned, left, items.root, path);
    let held_half = held_after_set(held, root, half, owned);
    law_set_keeps_counts_if::<C>(store, held, root, left, items.root, owned);
    // The number of the leaves is written to its right.
    let leaf = number_leaf::<C>(items.len);
    assert(half is Intermediate);
    assert(parted::<C>(second, half, right, left));
    if owned {
        law_closed_store_reads(second, half, left);
    }
    law_set_leaves_others::<C>(second, held_half, half, right, left, leaf, owned);
    lemma_set_keeps_below::<C>(
        second,
        held_half,
        half,
        right,
        leaf,
        owned,
        left,
        items.root,
        path,
    );
}

/// Get-after-set on a vector: after `set(i, bytes)` has succeeded, `get(i)`
/// returns the bytes, and the vector is as long as before.
pub proof fn law_vec_get_after_set<C: Construct>(
    store: Store,
    held: Multiset<Seq<u8>>,
    vector: VecView,
    i: nat,
    bytes: Seq<u8>,
    owned: bool,
)
    requires
        owned ==> balanced(store, held) && holds_root(held, vector.root, owned),
        vec_set_outcome::<C>(store, vector, i, bytes, owned) is Ok,
    ensures
        tuple_get_outcome(
            vec_set_outcome::<C>(store, vector, i, bytes, owned)->Ok_0.0,
            vec_set_outcome::<C>(store, vector, i, bytes, owned)->Ok_0.1.items,
            i,
        ) == Ok::<Seq<u8>, Error>(bytes),
        vec_set_outcome::<C>(store, vector, i, bytes, owned)->Ok_0.1.items.len == vector.items.len,
{
    let path = leaf_path(vector.items.len, i);
    let (first, items) = tuple_set_outcome::<C>(store, vector.items, i, bytes, false)->Ok_0;
    law_tuple_get_after_set::<C>(store, held, vector.items, i, bytes, false);
    if owned {
        law_set_keeps_counts::<C>(
            store,
            held,
            vector.items.root,
            path,
            ValueView::End(bytes),
            false,
        );
    }
    lemma_synced_keeps_items::<C>(first, held, vector.root, items, owned, path);
}

/// Non-interference on a vector: a `set(i, bytes)` that succeeds changes no
/// `get(j)` that succeeded before, for `j` other than `i`.
pub proof fn law_vec_set_leaves_others<C: Construct>(
    store: Store,
    held: Multiset<Seq<u8>>,
    vector: VecView,
    i: nat,
    j: nat,
    bytes: Seq<u8>,
    owned: bool,
)
    requires
        owned ==> balanced(store, held) && holds_root(held, vector.root, owned),
        vec_set_outcome::<C>(store, vector, i, bytes, owned) is Ok,
        tuple_get_outcome(store, vector.items, j) is Ok,
        i != j,
    ensures
        tuple_get_outcome(
            vec_set_outcome::<C>(store, vector, i, bytes, owned)->Ok_0.0,
            vec_set_outcome::<C>(store, vector, i, bytes, owned)->Ok_0.1.items,
            j,
        ) == tuple_get_outcome(store, vector.items, j),
{
    let path = leaf_path(vector.items.len, i);
    let (first, items) = tuple_set_outcome::<C>(store, vector.items, i, bytes, false)->Ok_0;
    law_tuple_set_leaves_others::<C>(store, held, vector.items, i, j, bytes, false);
    if owned {
        law_set_keeps_counts::<C>(
            store,
            held,
            vector.items.root,
            path,
            ValueView::End(bytes),
            false,
        );
    }
    lemma_synced_keeps_items::<C>(
        first,
        held,
        vector.root,
        items,
        owned,
        leaf_path(vector.items.len, j),
    );
}

/// Pinning the empty trees keeps the counts right.
pub proof fn lemma_with_empties_balanced<C: Construct>(
    store: Store,
    held: Multiset<Seq<u8>>,
    depth: nat,
)
    requires
        balanced(store, held),
        with_empties::<C>(store, depth) is Ok,
    ensures
        balanced(with_empties::<C>(store, depth)->Ok_0, held),
    decreases depth,
{
    if depth > 0 {
        lemma_with_empties_balanced::<C>(store, held, (depth - 1) as nat);
        let lower = with_empties::<C>(store, (depth - 1) as nat)->Ok_0;
        let below = empty_node::<C>((depth - 1) as nat);
        let key = C::digest(below, below);
        let entry = Entry { left: below, right: below, count: PINNED as nat };
        let after = lower.insert(key, entry);
        let holding = |k: Seq<u8>| held.count(k);
        if depth > 1 {
            lemma_empties_stored::<C>(store, (depth - 1) as nat, (depth - 1) as nat);
        }
        assert(resolvable(lower, below));
        assert forall|k: Seq<u8>| #[trigger] after.contains_key(k) implies after[k].count >= PINNED
            || after[k].count == references(after, k) + holding(k) by {
            if k != key {
                assert(lower.contains_key(k));
                if lower.contains_key(key) {
                    lemma_references_recount(lower, key, entry, k);
                } else {
                    lemma_references_insert_new(lower, key, entry, k);
                    if names(below, k) {
                        assert(lower[k].count >= PINNED);
                    }
                }
            }
        }
        assert forall|parent: Seq<u8>| #[trigger] after.contains_key(parent) implies resolvable(
            after,
            after[parent].left,
        ) && resolvable(after, after[parent].right) by {
            if parent != key {
                assert(lower.contains_key(parent));
            }
        }
        assert forall|k: Seq<u8>| !(#[trigger] after.contains_key(k)) implies holding(k) == 0 by {
            assert(!lower.contains_key(k));
        }
        assert(after.dom() =~= lower.dom().insert(key));
    }
}

/// A `push` on a dangling tuple keeps the counts right, and the leaf that was
/// pushed is read back at the end of the tuple.
pub proof fn lemma_dangling_push<C: Construct>(
    store: Store,
    held: Multiset<Seq<u8>>,
    tuple: TupleView,
    bytes: Seq<u8>,
    counted: bool,
)
    requires
        counted ==> balanced(store, held),
        tuple_push_outcome::<C>(store, tuple, bytes, false) is Ok,
    ensures
        counted ==> balanced(tuple_push_outcome::<C>(store, tuple, bytes, false)->Ok_0.0, held),
        tuple_push_outcome::<C>(store, tuple, bytes, false)->Ok_0.1.len == tuple.len + 1,
        tuple_get_outcome(
            tuple_push_outcome::<C>(store, tuple, bytes, false)->Ok_0.0,
            tuple_push_outcome::<C>(store, tuple, bytes, false)->Ok_0.1,
            tuple.len,
        ) == Ok::<Seq<u8>, Error>(bytes),
{
    let left = path_of(2);
    let right = path_of(3);
    let path = leaf_path(tuple.len + 1, tuple.len);
    let leaf = ValueView::End(bytes);
    if levels(tuple.len + 1) > levels(tuple.len) {
        let pinned = with_empties::<C>(store, levels(tuple.len + 1))->Ok_0;
        let (first, half) = set_outcome::<C>(pinned, blank_leaf::<C>(), left, tuple.root, false)->Ok_0;
        let (second, root) = set_outcome::<C>(first, half, right, tuple.empty, false)->Ok_0;
        if counted {
            lemma_with_empties_balanced::<C>(store, held, levels(tuple.len + 1));
            law_set_keeps_counts::<C>(pinned, held, blank_leaf::<C>(), left, tuple.root, false);
            law_set_keeps_counts::<C>(first, held, half, right, tuple.empty, false);
            law_set_keeps_counts::<C>(second, held, root, path, leaf, false);
        }
        law_get_after_set::<C>(second, held, root, path, leaf, false);
    } else {
        if counted {
            law_set_keeps_counts::<C>(store, held, tuple.root, path, leaf, false);
        }
        law_get_after_set::<C>(store, held, tuple.root, path, leaf, false);
    }
}

/// Get-after-push on a vector: after `push(bytes)` has succeeded, the vector
/// is one longer, and `get` returns the bytes at its end.
pub proof fn law_vec_get_after_push<C: Construct>(
    store: Store,
    held: Multiset<Seq<u8>>,
    vector: VecView,
    bytes: Seq<u8>,
    owned: bool,
)
    requires
        owned ==> balanced(store, held) && holds_root(held, vector.root, owned),
        vec_push_outcome::<C>(store, vector, bytes, owned) is Ok,
    ensures
        vec_push_outcome::<C>(store, vector, bytes, owned)->Ok_0.1.items.len == vector.items.len
            + 1,
        tuple_get_outcome(
            vec_push_outcome::<C>(store, vector, bytes, owned)->Ok_0.0,
            vec_push_outcome::<C>(store, vector, bytes, owned)->Ok_0.1.items,
            vector.items.len,
        ) == Ok::<Seq<u8>, Error>(bytes),
{
    let (first, items) = tuple_push_outcome::<C>(store, vector.items, bytes, false)->Ok_0;
    lemma_dangling_push::<C>(store, held, vector.items, bytes, owned);
    lemma_synced_keeps_items::<C>(
        first,
        held,
        vector.root,
        items,
        owned,
        leaf_path(items.len, vector.items.len),
    );
}

/// Push and pop: a `pop` that succeeds right after a `push` returns what was
/// pushed, and the vector is as long as before the `push`.
pub proof fn law_vec_push_then_pop<C: Construct>(
    store: Store,
    held: Multiset<Seq<u8>>,
    vector: VecView,
    bytes: Seq<u8>,
    owned: bool,
)
    requires
        owned ==> balanced(store, held) && holds_root(held, vector.root, owned),
        vec_push_outcome::<C>(store, vector, bytes, owned) is Ok,
        vec_pop_outcome::<C>(
            vec_push_outcome::<C>(store, vector, bytes, owned)->Ok_0.0,
            vec_push_outcome::<C>(store, vector, bytes, owned)->Ok_0.1,
            owned,
        ) is Ok,
    ensures
        vec_pop_outcome::<C>(
            vec_push_outcome::<C>(store, vector, bytes, owned)->Ok_0.0,
            vec_push_outcome::<C>(store, vector, bytes, owned)->Ok_0.1,
            owned,
        )->Ok_0.2 == Some(bytes),
        vec_pop_outcome::<C>(
            vec_push_outcome::<C>(store, vector, bytes, owned)->Ok_0.0,
            vec_push_outcome::<C>(store, vector, bytes, owned)->Ok_0.1,
            owned,
        )->Ok_0.1.items.len == vector.items.len,
{
    law_vec_get_after_push::<C>(store, held, vector, bytes, owned);
}

/// A `set` that succeeds keeps the counts right, where they were right.
proof fn law_set_keeps_counts_if<C: Construct>(
    store: Store,
    held: Multiset<Seq<u8>>,
    root: ValueView,
    path: Seq<IndexSelection>,
    value: ValueView,
    owned: bool,
)
    requires
        owned ==> balanced(store, held) && holds_root(held, root, owned),
        set_outcome::<C>(store, root, path, value, owned) is Ok,
    ensures
        owned ==> balanced(
            set_outcome::<C>(store, root, path, value, owned)->Ok_0.0,
            held_after_set(
                held,
                root,
                set_outcome::<C>(store, root, path, value, owned)->Ok_0.1,
                owned,
            ),
        ) && holds_root(
            held_after_set(
                held,
                root,
                set_outcome::<C>(store, root, path, value, owned)->Ok_0.1,
                owned,
            ),
            set_outcome::<C>(store, root, path, value, owned)->Ok_0.1,
            owned,
        ),
{
    if owned {
        law_set_keeps_counts::<C>(store, held, root, path, value, owned);
    }
}

} // verus!
