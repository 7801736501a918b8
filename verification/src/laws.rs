//! What holds of reads and writes, proved over the model of a backend.

use crate::counting::{
    balanced, balanced_by, closed, lemma_bumped_balanced, lemma_planted_balanced,
    lemma_released_balanced, lemma_released_part, names, occurrences,
};
use crate::error::Error;
use crate::index::IndexSelection;
use crate::store::{
    bumped, extends, inserted, lemma_bumped_extends, lemma_inserted_extends, merged, pair_at,
    populated, released, released_value, resolvable, rootified_value, with_empties, Store, PINNED,
};
use crate::tuple::{
    leaf_path, lemma_capacity_from_grows, lemma_leaf_path_len, levels, tuple_create_outcome,
    tuple_get_outcome,
};
use crate::value::{blank_leaf, empty_node};
use crate::tree::{
    children, chosen, lookup, on_record, planted, record_grown, replaced, set_outcome, trail,
};
use crate::value::{Construct, ValueView};
use vstd::multiset::Multiset;
use vstd::prelude::*;

verus! {

/// A read that succeeds in a store reads the same in every store that extends it.
pub proof fn lemma_lookup_extends(
    small: Store,
    big: Store,
    node: ValueView,
    path: Seq<IndexSelection>,
)
    requires
        extends(small, big),
        lookup(small, node, path) is Ok,
    ensures
        lookup(big, node, path) == lookup(small, node, path),
    decreases path.len(),
{
    if path.len() > 0 {
        match node {
            ValueView::End(_) => {},
            ValueView::Intermediate(key) => {
                assert(small.contains_key(key));
                lemma_lookup_extends(
                    small,
                    big,
                    chosen(small[key].left, small[key].right, path[0]),
                    path.drop_first(),
                );
            },
        }
    }
}

/// Planting a value keeps every pair of the store.
pub proof fn lemma_planted_extends<C: Construct>(
    store: Store,
    node: ValueView,
    path: Seq<IndexSelection>,
    value: ValueView,
)
    requires
        planted::<C>(store, node, path, value) is Ok,
    ensures
        extends(store, planted::<C>(store, node, path, value)->Ok_0.0),
    decreases path.len(),
{
    if path.len() > 0 {
        let pair = children::<C>(store, node)->Ok_0;
        let below = planted::<C>(store, chosen(pair.0, pair.1, path[0]), path.drop_first(), value);
        lemma_planted_extends::<C>(store, chosen(pair.0, pair.1, path[0]), path.drop_first(), value);
        let (lower, sub) = below->Ok_0;
        let grown = replaced(pair.0, pair.1, path[0], sub);
        lemma_inserted_extends(lower, C::digest(grown.0, grown.1), grown.0, grown.1);
    }
}

/// A value that has been planted is found at the end of the path it was
/// planted on, below the node that the planting returned.
pub proof fn lemma_planted_found<C: Construct>(
    store: Store,
    node: ValueView,
    path: Seq<IndexSelection>,
    value: ValueView,
)
    requires
        planted::<C>(store, node, path, value) is Ok,
    ensures
        lookup(
            planted::<C>(store, node, path, value)->Ok_0.0,
            planted::<C>(store, node, path, value)->Ok_0.1,
            path,
        ) == Ok::<Option<ValueView>, Error>(Some(value)),
    decreases path.len(),
{
    if path.len() > 0 {
        let pair = children::<C>(store, node)->Ok_0;
        let child = chosen(pair.0, pair.1, path[0]);
        let below = planted::<C>(store, child, path.drop_first(), value);
        lemma_planted_found::<C>(store, child, path.drop_first(), value);
        let (lower, sub) = below->Ok_0;
        let grown = replaced(pair.0, pair.1, path[0], sub);
        let key = C::digest(grown.0, grown.1);
        lemma_inserted_extends(lower, key, grown.0, grown.1);
        let after = inserted(lower, key, grown.0, grown.1)->Ok_0;
        lemma_lookup_extends(lower, after, sub, path.drop_first());
        assert(chosen(after[key].left, after[key].right, path[0]) == sub);
    }
}

/// A read below a node of a closed store that holds the pairs of a larger one
/// finds what the larger store finds.
pub proof fn lemma_lookup_within(
    part: Store,
    whole: Store,
    node: ValueView,
    path: Seq<IndexSelection>,
)
    requires
        extends(part, whole),
        closed(part),
        resolvable(part, node),
    ensures
        lookup(part, node, path) == lookup(whole, node, path),
    decreases path.len(),
{
    if path.len() > 0 {
        match node {
            ValueView::End(_) => {},
            ValueView::Intermediate(key) => {
                assert(part.contains_key(key));
                lemma_lookup_within(
                    part,
                    whole,
                    chosen(part[key].left, part[key].right, path[0]),
                    path.drop_first(),
                );
            },
        }
    }
}

/// Counts that are right for one way of saying what is held are right for
/// every way that says the same of each key.
pub proof fn lemma_balanced_pointwise(
    store: Store,
    held: spec_fn(Seq<u8>) -> nat,
    same: spec_fn(Seq<u8>) -> nat,
)
    requires
        balanced_by(store, held),
        forall|key: Seq<u8>| #[trigger] held(key) == same(key),
    ensures
        balanced_by(store, same),
{
    assert forall|key: Seq<u8>| !(#[trigger] store.contains_key(key)) implies same(key) == 0 by {
        assert(held(key) == same(key));
    }
    assert forall|key: Seq<u8>| #[trigger] store.contains_key(key) implies store[key].count
        >= PINNED || store[key].count == crate::counting::references(store, key) + same(key) by {
        assert(held(key) == same(key));
    }
}

/// The references that are held after `set`: an owned tree holds its new root
/// in place of its old one.
pub open spec fn held_after_set(
    held: Multiset<Seq<u8>>,
    root: ValueView,
    top: ValueView,
    owned: bool,
) -> Multiset<Seq<u8>> {
    if owned {
        let with_top = match top {
            ValueView::Intermediate(key) => held.insert(key),
            ValueView::End(_) => held,
        };
        match root {
            ValueView::Intermediate(key) => with_top.remove(key),
            ValueView::End(_) => with_top,
        }
    } else {
        held
    }
}

/// Whether an owned tree with the root `root` holds a reference on it.
pub open spec fn holds_root(held: Multiset<Seq<u8>>, root: ValueView, owned: bool) -> bool {
    owned ==> match root {
        ValueView::Intermediate(key) => held.count(key) >= 1,
        ValueView::End(_) => true,
    }
}

/// What a `set` that succeeds on a store with right counts leaves behind: the
/// counts are right again, the tree holds its new root, every pair of the new
/// store is a pair of the store after the planting, and the new root is
/// resolvable.
pub proof fn lemma_set_settles<C: Construct>(
    store: Store,
    held: Multiset<Seq<u8>>,
    root: ValueView,
    path: Seq<IndexSelection>,
    value: ValueView,
    owned: bool,
)
    requires
        balanced(store, held),
        holds_root(held, root, owned),
        set_outcome::<C>(store, root, path, value, owned) is Ok,
        !(root is End && path.len() == 0),
    ensures
        planted::<C>(store, root, path, value) is Ok,
        planted::<C>(store, root, path, value)->Ok_0.1 == set_outcome::<C>(
            store,
            root,
            path,
            value,
            owned,
        )->Ok_0.1,
        extends(
            set_outcome::<C>(store, root, path, value, owned)->Ok_0.0,
            planted::<C>(store, root, path, value)->Ok_0.0,
        ),
        balanced(
            set_outcome::<C>(store, root, path, value, owned)->Ok_0.0,
            held_after_set(
                held,
                root,
                set_outcome::<C>(store, root, path, value, owned)->Ok_0.1,
                owned,
            ),
        ),
        holds_root(
            held_after_set(
                held,
                root,
                set_outcome::<C>(store, root, path, value, owned)->Ok_0.1,
                owned,
            ),
            set_outcome::<C>(store, root, path, value, owned)->Ok_0.1,
            owned,
        ),
        owned ==> resolvable(
            set_outcome::<C>(store, root, path, value, owned)->Ok_0.0,
            set_outcome::<C>(store, root, path, value, owned)->Ok_0.1,
        ),
{
    broadcast use vstd::multiset::group_multiset_axioms;

    let before = |key: Seq<u8>| held.count(key);
    let (grown, top) = planted::<C>(store, root, path, value)->Ok_0;
    lemma_planted_balanced::<C>(store, before, root, path, value);
    if owned {
        let kept = rootified_value(grown, top)->Ok_0;
        let with_top = |key: Seq<u8>|
            before(key) + (if names(top, key) {
                1nat
            } else {
                0nat
            });
        lemma_bumped_balanced(grown, before, top);
        lemma_bumped_extends(grown, top);
        let after = released_value(kept, root)->Ok_0;
        let target = held_after_set(held, root, top, owned);
        let last = |key: Seq<u8>| target.count(key);
        match root {
            ValueView::End(_) => {
                lemma_balanced_pointwise(kept, with_top, last);
            },
            ValueView::Intermediate(old) => {
                let loaded = |key: Seq<u8>| last(key) + occurrences(seq![old], key);
                assert forall|key: Seq<u8>| #[trigger] with_top(key) == loaded(key) by {
                    assert(seq![old].drop_last() =~= Seq::<Seq<u8>>::empty());
                    assert(occurrences(seq![old], key) == (if key == old {
                        1nat
                    } else {
                        0nat
                    })) by {
                        reveal_with_fuel(occurrences, 2);
                    }
                }
                lemma_balanced_pointwise(kept, with_top, loaded);
                lemma_released_balanced(kept, last, seq![old]);
            },
        }
        assert(extends(after, grown)) by {
            assert forall|key: Seq<u8>| #[trigger] after.contains_key(key) implies grown.contains_key(
                key,
            ) && grown[key].left == after[key].left && grown[key].right == after[key].right by {
                assert(kept.contains_key(key));
            }
        }
        match top {
            ValueView::Intermediate(key) => {
                assert(last(key) >= 1);
                assert(after.contains_key(key));
            },
            ValueView::End(_) => {},
        }
    } else {
        assert(extends(grown, grown));
    }
}

/// Get-after-set: after `set(i, v)` has succeeded, `get(i)` finds `v`.
///
/// For an owned tree the counts of the store must be right, with the tree
/// holding a reference on its root; a dangling tree asks for nothing.
pub proof fn law_get_after_set<C: Construct>(
    store: Store,
    held: Multiset<Seq<u8>>,
    root: ValueView,
    path: Seq<IndexSelection>,
    value: ValueView,
    owned: bool,
)
    requires
        owned ==> balanced(store, held) && holds_root(held, root, owned),
        set_outcome::<C>(store, root, path, value, owned) is Ok,
    ensures
        lookup(
            set_outcome::<C>(store, root, path, value, owned)->Ok_0.0,
            set_outcome::<C>(store, root, path, value, owned)->Ok_0.1,
            path,
        ) == Ok::<Option<ValueView>, Error>(Some(value)),
{
    if !(root is End && path.len() == 0) {
        lemma_planted_found::<C>(store, root, path, value);
        if owned {
            lemma_set_settles::<C>(store, held, root, path, value, owned);
            let (after, top) = set_outcome::<C>(store, root, path, value, owned)->Ok_0;
            let grown = planted::<C>(store, root, path, value)->Ok_0.0;
            lemma_lookup_within(after, grown, top, path);
        }
    }
}

/// Whether a write on `written` cannot show in a read on `read`: the paths part
/// ways, and not at a leaf with the read ending one step below it. There the
/// write puts an inner node in place of the leaf, and the read, which ran into
/// the leaf before, finds a default leaf.
pub open spec fn parted<C: Construct>(
    store: Store,
    node: ValueView,
    written: Seq<IndexSelection>,
    read: Seq<IndexSelection>,
) -> bool
    decreases written.len(),
{
    if written.len() == 0 || read.len() == 0 {
        false
    } else if written[0] != read[0] {
        node is Intermediate || read.len() > 1
    } else {
        match children::<C>(store, node) {
            Ok((left, right)) => parted::<C>(
                store,
                chosen(left, right, written[0]),
                written.drop_first(),
                read.drop_first(),
            ),
            Err(_) => false,
        }
    }
}

/// Planting a value changes no read on a path that is parted from its own.
pub proof fn lemma_planted_leaves_others<C: Construct>(
    store: Store,
    node: ValueView,
    written: Seq<IndexSelection>,
    read: Seq<IndexSelection>,
    value: ValueView,
)
    requires
        planted::<C>(store, node, written, value) is Ok,
        parted::<C>(store, node, written, read),
        lookup(store, node, read) is Ok,
    ensures
        lookup(
            planted::<C>(store, node, written, value)->Ok_0.0,
            planted::<C>(store, node, written, value)->Ok_0.1,
            read,
        ) == lookup(store, node, read),
    decreases written.len(),
{
    let pair = children::<C>(store, node)->Ok_0;
    let child = chosen(pair.0, pair.1, written[0]);
    let (lower, sub) = planted::<C>(store, child, written.drop_first(), value)->Ok_0;
    let grown = replaced(pair.0, pair.1, written[0], sub);
    let key = C::digest(grown.0, grown.1);
    lemma_planted_extends::<C>(store, child, written.drop_first(), value);
    lemma_inserted_extends(lower, key, grown.0, grown.1);
    let after = inserted(lower, key, grown.0, grown.1)->Ok_0;
    assert(extends(store, after)) by {
        assert forall|k: Seq<u8>| #[trigger] store.contains_key(k) implies after.contains_key(k)
            && after[k].left == store[k].left && after[k].right == store[k].right by {
            assert(lower.contains_key(k));
        }
    }
    if written[0] != read[0] {
        let sibling = chosen(pair.0, pair.1, read[0]);
        assert(chosen(after[key].left, after[key].right, read[0]) == sibling);
        match node {
            ValueView::Intermediate(_) => {
                lemma_lookup_extends(store, after, sibling, read.drop_first());
            },
            ValueView::End(_) => {
                assert(read.len() > 1);
                assert(read.drop_first().len() > 0);
            },
        }
    } else {
        assert(parted::<C>(store, child, written.drop_first(), read.drop_first()));
        assert(read.drop_first().len() > 0);
        assert(chosen(after[key].left, after[key].right, read[0]) == sub);
        assert(lookup(store, child, read.drop_first()) is Ok) by {
            match node {
                ValueView::Intermediate(_) => {},
                ValueView::End(_) => {},
            }
        }
        lemma_planted_leaves_others::<C>(
            store,
            child,
            written.drop_first(),
            read.drop_first(),
            value,
        );
        lemma_lookup_extends(lower, after, sub, read.drop_first());
        match node {
            ValueView::Intermediate(_) => {},
            ValueView::End(_) => {
                assert(read.drop_first().len() > 0);
            },
        }
    }
}

/// Non-interference: a `set` that succeeds changes no `get` on a path that is
/// parted from its own and on which the store holds every node.
pub proof fn law_set_leaves_others<C: Construct>(
    store: Store,
    held: Multiset<Seq<u8>>,
    root: ValueView,
    written: Seq<IndexSelection>,
    read: Seq<IndexSelection>,
    value: ValueView,
    owned: bool,
)
    requires
        owned ==> balanced(store, held) && holds_root(held, root, owned),
        set_outcome::<C>(store, root, written, value, owned) is Ok,
        parted::<C>(store, root, written, read),
        lookup(store, root, read) is Ok,
    ensures
        lookup(
            set_outcome::<C>(store, root, written, value, owned)->Ok_0.0,
            set_outcome::<C>(store, root, written, value, owned)->Ok_0.1,
            read,
        ) == lookup(store, root, read),
{
    lemma_planted_leaves_others::<C>(store, root, written, read, value);
    if owned {
        lemma_set_settles::<C>(store, held, root, written, value, owned);
        let (after, top) = set_outcome::<C>(store, root, written, value, owned)->Ok_0;
        let grown = planted::<C>(store, root, written, value)->Ok_0.0;
        lemma_lookup_within(after, grown, top, read);
    }
}

/// Whether `value` stands at the end of `path` below `node`, with every node
/// on the path stored under the key of its pair.
pub open spec fn settled<C: Construct>(
    store: Store,
    node: ValueView,
    path: Seq<IndexSelection>,
    value: ValueView,
) -> bool
    decreases path.len(),
{
    if path.len() == 0 {
        node == value
    } else {
        match node {
            ValueView::End(_) => false,
            ValueView::Intermediate(key) => {
                &&& store.contains_key(key)
                &&& key == C::digest(store[key].left, store[key].right)
                &&& settled::<C>(
                    store,
                    chosen(store[key].left, store[key].right, path[0]),
                    path.drop_first(),
                    value,
                )
            },
        }
    }
}

/// What is settled in a store is settled in every store that extends it.
pub proof fn lemma_settled_extends<C: Construct>(
    small: Store,
    big: Store,
    node: ValueView,
    path: Seq<IndexSelection>,
    value: ValueView,
)
    requires
        extends(small, big),
        settled::<C>(small, node, path, value),
    ensures
        settled::<C>(big, node, path, value),
    decreases path.len(),
{
    if path.len() > 0 {
        let key = node->Intermediate_0;
        assert(small.contains_key(key));
        lemma_settled_extends::<C>(
            small,
            big,
            chosen(small[key].left, small[key].right, path[0]),
            path.drop_first(),
            value,
        );
    }
}

/// What is settled in a store is settled in every closed part of it that
/// holds the node.
pub proof fn lemma_settled_within<C: Construct>(
    part: Store,
    whole: Store,
    node: ValueView,
    path: Seq<IndexSelection>,
    value: ValueView,
)
    requires
        extends(part, whole),
        closed(part),
        resolvable(part, node),
        settled::<C>(whole, node, path, value),
    ensures
        settled::<C>(part, node, path, value),
        resolvable(part, value),
    decreases path.len(),
{
    if path.len() > 0 {
        let key = node->Intermediate_0;
        assert(part.contains_key(key));
        lemma_settled_within::<C>(
            part,
            whole,
            chosen(part[key].left, part[key].right, path[0]),
            path.drop_first(),
            value,
        );
    }
}

/// A value that has been planted is settled.
pub proof fn lemma_planted_settled<C: Construct>(
    store: Store,
    node: ValueView,
    path: Seq<IndexSelection>,
    value: ValueView,
)
    requires
        planted::<C>(store, node, path, value) is Ok,
    ensures
        settled::<C>(
            planted::<C>(store, node, path, value)->Ok_0.0,
            planted::<C>(store, node, path, value)->Ok_0.1,
            path,
            value,
        ),
    decreases path.len(),
{
    if path.len() > 0 {
        let pair = children::<C>(store, node)->Ok_0;
        let child = chosen(pair.0, pair.1, path[0]);
        lemma_planted_settled::<C>(store, child, path.drop_first(), value);
        let (lower, sub) = planted::<C>(store, child, path.drop_first(), value)->Ok_0;
        let grown = replaced(pair.0, pair.1, path[0], sub);
        let key = C::digest(grown.0, grown.1);
        lemma_inserted_extends(lower, key, grown.0, grown.1);
        let after = inserted(lower, key, grown.0, grown.1)->Ok_0;
        lemma_settled_extends::<C>(lower, after, sub, path.drop_first(), value);
        assert(chosen(after[key].left, after[key].right, path[0]) == sub);
    }
}

/// Planting a value where it is settled changes nothing.
pub proof fn lemma_settled_planted<C: Construct>(
    store: Store,
    node: ValueView,
    path: Seq<IndexSelection>,
    value: ValueView,
)
    requires
        settled::<C>(store, node, path, value),
    ensures
        planted::<C>(store, node, path, value) == Ok::<(Store, ValueView), Error>((store, node)),
    decreases path.len(),
{
    if path.len() > 0 {
        let key = node->Intermediate_0;
        let child = chosen(store[key].left, store[key].right, path[0]);
        lemma_settled_planted::<C>(store, child, path.drop_first(), value);
        assert(replaced(store[key].left, store[key].right, path[0], child) == (
            store[key].left,
            store[key].right,
        ));
    }
}

/// Idempotence: a `set` that is made again right after it has succeeded
/// succeeds again, and leaves the root and the store as they are.
///
/// Two inputs are left out. A dangling tree that is one leaf takes any value as
/// its root, also an inner node that the store does not hold; the second `set`
/// then does not find it. And a new root whose count is one below the pin is
/// pinned by the second `set`.
pub proof fn law_set_twice<C: Construct>(
    store: Store,
    held: Multiset<Seq<u8>>,
    root: ValueView,
    path: Seq<IndexSelection>,
    value: ValueView,
    owned: bool,
)
    requires
        owned ==> balanced(store, held) && holds_root(held, root, owned),
        set_outcome::<C>(store, root, path, value, owned) is Ok,
        !owned && root is End && path.len() == 0 ==> resolvable(store, value),
        owned ==> match set_outcome::<C>(store, root, path, value, owned)->Ok_0.1 {
            ValueView::Intermediate(key) => set_outcome::<C>(
                store,
                root,
                path,
                value,
                owned,
            )->Ok_0.0[key].count + 1 != PINNED,
            ValueView::End(_) => true,
        },
    ensures
        set_outcome::<C>(
            set_outcome::<C>(store, root, path, value, owned)->Ok_0.0,
            set_outcome::<C>(store, root, path, value, owned)->Ok_0.1,
            path,
            value,
            owned,
        ) == set_outcome::<C>(store, root, path, value, owned),
{
    broadcast use vstd::multiset::group_multiset_axioms;

    let (after, top) = set_outcome::<C>(store, root, path, value, owned)->Ok_0;
    // The value is settled below the new root, and the new root is stored.
    if root is End && path.len() == 0 {
        assert(top == value);
        if owned {
            lemma_bumped_extends(store, value);
            law_set_keeps_counts::<C>(store, held, root, path, value, owned);
        }
        assert(resolvable(after, value));
        assert(settled::<C>(after, top, path, value));
    } else {
        lemma_planted_settled::<C>(store, root, path, value);
        let grown = planted::<C>(store, root, path, value)->Ok_0.0;
        if owned {
            lemma_set_settles::<C>(store, held, root, path, value, owned);
            lemma_settled_within::<C>(after, grown, top, path, value);
        } else {
            lemma_planted_extends::<C>(store, root, path, value);
            match value {
                ValueView::Intermediate(key) => {
                    assert(store.contains_key(key));
                },
                ValueView::End(_) => {},
            }
        }
    }
    lemma_settled_planted::<C>(after, top, path, value);
    if owned {
        let target = held_after_set(held, root, top, owned);
        law_set_keeps_counts::<C>(store, held, root, path, value, owned);
        match top {
            ValueView::Intermediate(key) => {
                assert(after.contains_key(key));
                let entry = after[key];
                let kept = bumped(after, top);
                assert(seq![key].drop_last() =~= Seq::<Seq<u8>>::empty());
                assert(seq![key].last() == key);
                if entry.count >= PINNED {
                    assert(kept =~= after);
                    assert(released(kept, key) == Ok::<Store, Error>(after)) by {
                        reveal_with_fuel(crate::store::released_all, 2);
                    }
                } else {
                    assert(target.count(key) >= 1);
                    assert(entry.count >= 1);
                    assert(kept[key].count == entry.count + 1);
                    assert(kept.dom() =~= after.dom());
                    assert(kept.insert(key, entry) =~= after);
                    assert(released(kept, key) == Ok::<Store, Error>(after)) by {
                        reveal_with_fuel(crate::store::released_all, 2);
                    }
                }
            },
            ValueView::End(_) => {},
        }
    }
}

/// Whether every pair of the store stands under the key that is its hash.
pub open spec fn hashed<C: Construct>(store: Store) -> bool {
    forall|key: Seq<u8>| #[trigger]
        store.contains_key(key) ==> key == C::digest(store[key].left, store[key].right)
}

/// Planting a value keeps every pair under its hash.
pub proof fn lemma_planted_hashed<C: Construct>(
    store: Store,
    node: ValueView,
    path: Seq<IndexSelection>,
    value: ValueView,
)
    requires
        hashed::<C>(store),
        planted::<C>(store, node, path, value) is Ok,
    ensures
        hashed::<C>(planted::<C>(store, node, path, value)->Ok_0.0),
    decreases path.len(),
{
    if path.len() > 0 {
        let pair = children::<C>(store, node)->Ok_0;
        let child = chosen(pair.0, pair.1, path[0]);
        lemma_planted_hashed::<C>(store, child, path.drop_first(), value);
        let (lower, sub) = planted::<C>(store, child, path.drop_first(), value)->Ok_0;
        let grown = replaced(pair.0, pair.1, path[0], sub);
        let key = C::digest(grown.0, grown.1);
        let after = inserted(lower, key, grown.0, grown.1)->Ok_0;
        if !lower.contains_key(key) {
            lemma_bumped_extends(lower, grown.0);
            lemma_bumped_extends(bumped(lower, grown.0), grown.1);
            assert forall|k: Seq<u8>| #[trigger] after.contains_key(k) implies k == C::digest(
                after[k].left,
                after[k].right,
            ) by {
                if k != key {
                    assert(lower.contains_key(k));
                }
            }
        }
    }
}

/// A `set` that succeeds keeps every pair of the store under the key that is
/// its hash.
pub proof fn law_set_keeps_hashes<C: Construct>(
    store: Store,
    root: ValueView,
    path: Seq<IndexSelection>,
    value: ValueView,
    owned: bool,
)
    requires
        hashed::<C>(store),
        set_outcome::<C>(store, root, path, value, owned) is Ok,
    ensures
        hashed::<C>(set_outcome::<C>(store, root, path, value, owned)->Ok_0.0),
{
    let after = set_outcome::<C>(store, root, path, value, owned)->Ok_0.0;
    if root is End && path.len() == 0 {
        if owned {
            lemma_bumped_extends(store, value);
        }
        assert forall|k: Seq<u8>| #[trigger] after.contains_key(k) implies k == C::digest(
            after[k].left,
            after[k].right,
        ) by {
            assert(store.contains_key(k));
        }
    } else {
        lemma_planted_hashed::<C>(store, root, path, value);
        let (grown, top) = planted::<C>(store, root, path, value)->Ok_0;
        if owned {
            let kept = rootified_value(grown, top)->Ok_0;
            lemma_bumped_extends(grown, top);
            match root {
                ValueView::End(_) => {},
                ValueView::Intermediate(old) => {
                    lemma_released_part(kept, seq![old]);
                },
            }
            assert forall|k: Seq<u8>| #[trigger] after.contains_key(k) implies k == C::digest(
                after[k].left,
                after[k].right,
            ) by {
                assert(kept.contains_key(k));
                assert(grown.contains_key(k));
            }
        }
    }
}

/// In a closed store, a read below a node that the store can resolve finds
/// every inner node on its path.
pub proof fn law_closed_store_reads(store: Store, node: ValueView, path: Seq<IndexSelection>)
    requires
        closed(store),
        resolvable(store, node),
    ensures
        lookup(store, node, path) is Ok,
    decreases path.len(),
{
    if path.len() > 0 {
        match node {
            ValueView::End(_) => {},
            ValueView::Intermediate(key) => {
                law_closed_store_reads(
                    store,
                    chosen(store[key].left, store[key].right, path[0]),
                    path.drop_first(),
                );
            },
        }
    }
}

/// What is on record stays on record while the record grows.
pub proof fn lemma_on_record_kept(
    before: Map<Seq<u8>, (ValueView, ValueView)>,
    after: Map<Seq<u8>, (ValueView, ValueView)>,
    store: Store,
    keys: Seq<Seq<u8>>,
)
    requires
        on_record(before, store, keys),
        record_grown(before, after, store),
    ensures
        on_record(after, store, keys),
{
    assert forall|i: int| 0 <= i < keys.len() implies after.contains_key(#[trigger] keys[i])
        && after[keys[i]] == pair_at(store, keys[i]) by {
        assert(before.contains_key(keys[i]));
    }
}

/// Whether `store` holds every pair of `record` under its key.
pub open spec fn holds_record(store: Store, record: Map<Seq<u8>, (ValueView, ValueView)>) -> bool {
    forall|key: Seq<u8>| #[trigger]
        record.contains_key(key) ==> store.contains_key(key) && pair_at(store, key) == record[key]
}

/// A read that succeeded in one store reads the same in every store that
/// holds a record of what the read fetched.
pub proof fn lemma_record_suffices(
    store: Store,
    record: Map<Seq<u8>, (ValueView, ValueView)>,
    other: Store,
    node: ValueView,
    path: Seq<IndexSelection>,
)
    requires
        on_record(record, store, trail(store, node, path)),
        holds_record(other, record),
        lookup(store, node, path) is Ok,
    ensures
        lookup(other, node, path) == lookup(store, node, path),
    decreases path.len(),
{
    if path.len() > 0 {
        match node {
            ValueView::End(_) => {},
            ValueView::Intermediate(key) => {
                let child = chosen(store[key].left, store[key].right, path[0]);
                let whole = trail(store, node, path);
                let rest = trail(store, child, path.drop_first());
                assert(whole == seq![key] + rest);
                assert(whole[0] == key);
                assert(record.contains_key(key));
                assert forall|i: int| 0 <= i < rest.len() implies record.contains_key(
                    #[trigger] rest[i],
                ) && record[rest[i]] == pair_at(store, rest[i]) by {
                    assert(whole[i + 1] == rest[i]);
                }
                lemma_record_suffices(store, record, other, child, path.drop_first());
            },
        }
    }
}

/// Proof soundness: a backend that was empty and has been populated with a
/// record of what a read fetched gives the same answer to that read.
pub proof fn law_proof_suffices(
    store: Store,
    record: Map<Seq<u8>, (ValueView, ValueView)>,
    root: ValueView,
    path: Seq<IndexSelection>,
)
    requires
        on_record(record, store, trail(store, root, path)),
        lookup(store, root, path) is Ok,
        populated(Map::empty(), record, root) is Ok,
    ensures
        lookup(populated(Map::empty(), record, root)->Ok_0, root, path) == lookup(store, root, path),
{
    let filled = merged(Map::empty(), record);
    let kept = populated(Map::empty(), record, root)->Ok_0;
    lemma_bumped_extends(filled, root);
    assert forall|key: Seq<u8>| #[trigger] record.contains_key(key) implies kept.contains_key(key)
        && pair_at(kept, key) == record[key] by {
        assert(filled.contains_key(key));
    }
    lemma_record_suffices(store, record, kept, root, path);
}

/// Where the empty trees up to a depth have been pinned, the store holds the
/// root of each of them, pinned, above two empty trees of one level less.
pub proof fn lemma_empties_stored<C: Construct>(store: Store, depth: nat, level: nat)
    requires
        with_empties::<C>(store, depth) is Ok,
        1 <= level <= depth,
    ensures
        empty_node::<C>(level) is Intermediate,
        with_empties::<C>(store, depth)->Ok_0.contains_key(empty_node::<C>(level)->Intermediate_0),
        pair_at(with_empties::<C>(store, depth)->Ok_0, empty_node::<C>(level)->Intermediate_0) == (
            empty_node::<C>((level - 1) as nat),
            empty_node::<C>((level - 1) as nat),
        ),
        level == depth ==> with_empties::<C>(store, depth)->Ok_0[empty_node::<C>(
            level,
        )->Intermediate_0].count == PINNED,
    decreases depth,
{
    if level < depth {
        lemma_empties_stored::<C>(store, (depth - 1) as nat, level);
    }
}

/// Every path that is as long as an empty tree is deep leads to a default
/// leaf, in a store in which the empty trees up to that depth are pinned.
pub proof fn lemma_empty_reads_blank<C: Construct>(
    store: Store,
    depth: nat,
    level: nat,
    path: Seq<IndexSelection>,
)
    requires
        with_empties::<C>(store, depth) is Ok,
        level <= depth,
        path.len() == level,
    ensures
        lookup(with_empties::<C>(store, depth)->Ok_0, empty_node::<C>(level), path) == Ok::<
            Option<ValueView>,
            Error,
        >(Some(blank_leaf::<C>())),
    decreases level,
{
    if level > 0 {
        lemma_empties_stored::<C>(store, depth, level);
        lemma_empty_reads_blank::<C>(store, depth, (level - 1) as nat, path.drop_first());
    }
}

/// Empty identity: the root of a tuple that has just been created is the root
/// of the empty tree of its depth; the store holds nothing more than before
/// but the pinned nodes of the empty trees; and every leaf reads as the
/// default leaf.
pub proof fn law_created_tuple_is_empty<C: Construct>(store: Store, len: nat, owned: bool, i: nat)
    requires
        tuple_create_outcome::<C>(store, len, owned) is Ok,
        i < len,
    ensures
        tuple_create_outcome::<C>(store, len, owned)->Ok_0.1.root == empty_node::<C>(levels(len)),
        tuple_create_outcome::<C>(store, len, owned)->Ok_0.1.empty == empty_node::<C>(levels(len)),
        tuple_create_outcome::<C>(store, len, owned)->Ok_0.1.len == len,
        tuple_create_outcome::<C>(store, len, owned)->Ok_0.0 == with_empties::<C>(
            store,
            levels(len),
        )->Ok_0,
        tuple_get_outcome(
            tuple_create_outcome::<C>(store, len, owned)->Ok_0.0,
            tuple_create_outcome::<C>(store, len, owned)->Ok_0.1,
            i,
        ) == Ok::<Seq<u8>, Error>(C::blank()),
{
    let depth = levels(len);
    let pinned = with_empties::<C>(store, depth)->Ok_0;
    let empty = empty_node::<C>(depth);
    assert(crate::index::path_of(1) =~= Seq::<IndexSelection>::empty());
    let (after, tuple) = tuple_create_outcome::<C>(store, len, owned)->Ok_0;
    if depth > 0 {
        lemma_empties_stored::<C>(store, depth, depth);
        let key = empty->Intermediate_0;
        if owned {
            assert(after =~= pinned);
        }
    }
    lemma_capacity_from_grows(1, len);
    lemma_leaf_path_len(len, i);
    lemma_empty_reads_blank::<C>(store, depth, depth, leaf_path(len, i));
}

/// A `set` that succeeds keeps the counts right: an owned tree then holds its
/// new root in place of its old one, and nothing else is held differently.
pub proof fn law_set_keeps_counts<C: Construct>(
    store: Store,
    held: Multiset<Seq<u8>>,
    root: ValueView,
    path: Seq<IndexSelection>,
    value: ValueView,
    owned: bool,
)
    requires
        balanced(store, held),
        holds_root(held, root, owned),
        set_outcome::<C>(store, root, path, value, owned) is Ok,
    ensures
        balanced(
            set_outcome::<C>(store, root, path, value, owned)->Ok_0.0,
            held_after_set(
                held,
                root,
                set_outcome::<C>(store, root, path, value, owned)->Ok_0.1,
                owned,
            ),
        ),
        holds_root(
            held_after_set(
                held,
                root,
                set_outcome::<C>(store, root, path, value, owned)->Ok_0.1,
                owned,
            ),
            set_outcome::<C>(store, root, path, value, owned)->Ok_0.1,
            owned,
        ),
{
    broadcast use vstd::multiset::group_multiset_axioms;

    if root is End && path.len() == 0 {
        if owned {
            let before = |key: Seq<u8>| held.count(key);
            lemma_bumped_balanced(store, before, value);
            let target = held_after_set(held, root, value, owned);
            let with_top = |key: Seq<u8>|
                before(key) + (if names(value, key) {
                    1nat
                } else {
                    0nat
                });
            lemma_balanced_pointwise(
                rootified_value(store, value)->Ok_0,
                with_top,
                |key: Seq<u8>| target.count(key),
            );
        }
    } else {
        lemma_set_settles::<C>(store, held, root, path, value, owned);
    }
}

} // verus!
