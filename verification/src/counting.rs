//! Reference counts: when the counts of a store are those of the references
//! that are held on its entries, and why writes and releases keep them so.

use crate::index::IndexSelection;
use crate::store::{
    bumped, extends, inserted, released_all, resolvable, with_child, Entry, Store, PINNED,
};
use crate::tree::{children, chosen, planted, replaced};
use crate::value::{Construct, ValueView};
use vstd::multiset::Multiset;
use vstd::prelude::*;

verus! {

/// Whether `value` is the inner node with the key `key`.
pub open spec fn names(value: ValueView, key: Seq<u8>) -> bool {
    value == ValueView::Intermediate(key)
}

/// How many of the two children are the inner node with the key `key`.
pub open spec fn slots(left: ValueView, right: ValueView, key: Seq<u8>) -> nat {
    (if names(left, key) {
        1nat
    } else {
        0nat
    }) + (if names(right, key) {
        1nat
    } else {
        0nat
    })
}

/// The stored entries whose left child is the inner node with the key `key`.
pub open spec fn left_parents(store: Store, key: Seq<u8>) -> Set<Seq<u8>> {
    Set::new(|parent: Seq<u8>| store.contains_key(parent) && names(store[parent].left, key))
}

/// The stored entries whose right child is the inner node with the key `key`.
pub open spec fn right_parents(store: Store, key: Seq<u8>) -> Set<Seq<u8>> {
    Set::new(|parent: Seq<u8>| store.contains_key(parent) && names(store[parent].right, key))
}

/// The number of child slots of stored entries that name `key`.
pub open spec fn references(store: Store, key: Seq<u8>) -> nat {
    left_parents(store, key).len() + right_parents(store, key).len()
}

/// Whether every child of a stored entry that is an inner node is stored too.
pub open spec fn closed(store: Store) -> bool {
    forall|parent: Seq<u8>| #[trigger]
        store.contains_key(parent) ==> resolvable(store, store[parent].left) && resolvable(
            store,
            store[parent].right,
        )
}

/// Whether the counts of `store` are right, where `held(key)` references are
/// held on `key` from outside the store: the store is finite and closed, only
/// stored keys are held, and the count of every entry that is not pinned is
/// the number of slots that name it plus the number of times it is held.
pub open spec fn balanced_by(store: Store, held: spec_fn(Seq<u8>) -> nat) -> bool {
    &&& store.dom().finite()
    &&& closed(store)
    &&& forall|key: Seq<u8>| !(#[trigger] store.contains_key(key)) ==> held(key) == 0
    &&& forall|key: Seq<u8>| #[trigger]
        store.contains_key(key) ==> store[key].count >= PINNED || store[key].count == references(
            store,
            key,
        ) + held(key)
}

/// The same, with the references that are held given as a multiset of keys.
pub open spec fn balanced(store: Store, held: Multiset<Seq<u8>>) -> bool {
    balanced_by(store, |key: Seq<u8>| held.count(key))
}

/// The parents of a key in a finite store are finitely many.
pub proof fn lemma_parents_finite(store: Store, key: Seq<u8>)
    requires
        store.dom().finite(),
    ensures
        left_parents(store, key).finite(),
        right_parents(store, key).finite(),
{
    assert(left_parents(store, key).subset_of(store.dom()));
    assert(right_parents(store, key).subset_of(store.dom()));
    vstd::set_lib::lemma_set_subset_finite(store.dom(), left_parents(store, key));
    vstd::set_lib::lemma_set_subset_finite(store.dom(), right_parents(store, key));
}

/// A new entry adds one reference for each of its slots.
pub proof fn lemma_references_insert_new(store: Store, key: Seq<u8>, entry: Entry, child: Seq<u8>)
    requires
        store.dom().finite(),
        !store.contains_key(key),
    ensures
        references(store.insert(key, entry), child) == references(store, child) + slots(
            entry.left,
            entry.right,
            child,
        ),
{
    let after = store.insert(key, entry);
    lemma_parents_finite(store, child);
    if names(entry.left, child) {
        assert(left_parents(after, child) =~= left_parents(store, child).insert(key));
    } else {
        assert(left_parents(after, child) =~= left_parents(store, child));
    }
    if names(entry.right, child) {
        assert(right_parents(after, child) =~= right_parents(store, child).insert(key));
    } else {
        assert(right_parents(after, child) =~= right_parents(store, child));
    }
}

/// A change of a count changes no reference.
pub proof fn lemma_references_recount(store: Store, key: Seq<u8>, entry: Entry, child: Seq<u8>)
    requires
        store.contains_key(key),
        entry.left == store[key].left,
        entry.right == store[key].right,
    ensures
        references(store.insert(key, entry), child) == references(store, child),
{
    let after = store.insert(key, entry);
    assert(left_parents(after, child) =~= left_parents(store, child));
    assert(right_parents(after, child) =~= right_parents(store, child));
}

/// An entry that is removed takes one reference away for each of its slots.
pub proof fn lemma_references_remove(store: Store, key: Seq<u8>, child: Seq<u8>)
    requires
        store.dom().finite(),
        store.contains_key(key),
    ensures
        references(store.remove(key), child) + slots(store[key].left, store[key].right, child)
            == references(store, child),
{
    let after = store.remove(key);
    lemma_parents_finite(store, child);
    assert(left_parents(after, child) =~= left_parents(store, child).remove(key));
    assert(right_parents(after, child) =~= right_parents(store, child).remove(key));
}

/// Where no slot names a key, no stored entry has it as a child.
pub proof fn lemma_unreferenced(store: Store, key: Seq<u8>)
    requires
        store.dom().finite(),
        references(store, key) == 0,
    ensures
        forall|parent: Seq<u8>| #[trigger]
            store.contains_key(parent) ==> !names(store[parent].left, key) && !names(
                store[parent].right,
                key,
            ),
{
    lemma_parents_finite(store, key);
    assert forall|parent: Seq<u8>| #[trigger] store.contains_key(parent) implies !names(
        store[parent].left,
        key,
    ) && !names(store[parent].right, key) by {
        if names(store[parent].left, key) {
            assert(left_parents(store, key).contains(parent));
        }
        if names(store[parent].right, key) {
            assert(right_parents(store, key).contains(parent));
        }
    }
}

/// In a closed store, no slot names a key that is not stored.
pub proof fn lemma_unstored_unreferenced(store: Store, key: Seq<u8>)
    requires
        closed(store),
        !store.contains_key(key),
    ensures
        references(store, key) == 0,
{
    assert(left_parents(store, key) =~= Set::<Seq<u8>>::empty());
    assert(right_parents(store, key) =~= Set::<Seq<u8>>::empty());
}

/// One more reference on a stored key keeps the counts right, with the key
/// held once more.
pub proof fn lemma_bumped_balanced(store: Store, held: spec_fn(Seq<u8>) -> nat, value: ValueView)
    requires
        balanced_by(store, held),
        resolvable(store, value),
    ensures
        balanced_by(
            bumped(store, value),
            |key: Seq<u8>|
                held(key) + (if names(value, key) {
                    1nat
                } else {
                    0nat
                }),
        ),
{
    let after = bumped(store, value);
    let more = |key: Seq<u8>|
        held(key) + (if names(value, key) {
            1nat
        } else {
            0nat
        });
    assert(after.dom() =~= store.dom());
    match value {
        ValueView::End(_) => {
            assert(after == store);
        },
        ValueView::Intermediate(target) => {
            let entry = after[target];
            assert forall|key: Seq<u8>| #[trigger] after.contains_key(key) implies after[key].count
                >= PINNED || after[key].count == references(after, key) + more(key) by {
                lemma_references_recount(store, target, entry, key);
                assert(store.contains_key(key));
            }
            assert forall|parent: Seq<u8>| #[trigger] after.contains_key(parent) implies resolvable(
                after,
                after[parent].left,
            ) && resolvable(after, after[parent].right) by {
                assert(store.contains_key(parent));
            }
        },
    }
}

/// An insert that succeeds keeps the counts right.
pub proof fn lemma_inserted_balanced(
    store: Store,
    held: spec_fn(Seq<u8>) -> nat,
    key: Seq<u8>,
    left: ValueView,
    right: ValueView,
)
    requires
        balanced_by(store, held),
        inserted(store, key, left, right) is Ok,
    ensures
        balanced_by(inserted(store, key, left, right)->Ok_0, held),
{
    if !store.contains_key(key) {
        let once = bumped(store, left);
        let held_once = |k: Seq<u8>|
            held(k) + (if names(left, k) {
                1nat
            } else {
                0nat
            });
        lemma_bumped_balanced(store, held, left);
        assert(once.dom() =~= store.dom());
        let twice = bumped(once, right);
        let held_twice = |k: Seq<u8>|
            held_once(k) + (if names(right, k) {
                1nat
            } else {
                0nat
            });
        lemma_bumped_balanced(once, held_once, right);
        assert(twice.dom() =~= store.dom());
        let entry = Entry { left, right, count: 0 };
        let after = twice.insert(key, entry);
        assert(after == inserted(store, key, left, right)->Ok_0);
        lemma_unstored_unreferenced(twice, key);
        assert forall|k: Seq<u8>| #[trigger] after.contains_key(k) implies after[k].count >= PINNED
            || after[k].count == references(after, k) + held(k) by {
            lemma_references_insert_new(twice, key, entry, k);
            if k != key {
                assert(twice.contains_key(k));
                assert(held_twice(k) == held(k) + slots(left, right, k));
            } else {
                assert(!names(left, key));
                assert(!names(right, key));
                assert(!store.contains_key(key));
            }
        }
        assert forall|parent: Seq<u8>| #[trigger] after.contains_key(parent) implies resolvable(
            after,
            after[parent].left,
        ) && resolvable(after, after[parent].right) by {
            if parent != key {
                assert(twice.contains_key(parent));
            }
        }
        assert forall|k: Seq<u8>| !(#[trigger] after.contains_key(k)) implies held(k) == 0 by {
            assert(!store.contains_key(k));
        }
    }
}

/// Planting a value keeps the counts right.
pub proof fn lemma_planted_balanced<C: Construct>(
    store: Store,
    held: spec_fn(Seq<u8>) -> nat,
    node: ValueView,
    path: Seq<IndexSelection>,
    value: ValueView,
)
    requires
        balanced_by(store, held),
        planted::<C>(store, node, path, value) is Ok,
    ensures
        balanced_by(planted::<C>(store, node, path, value)->Ok_0.0, held),
    decreases path.len(),
{
    if path.len() > 0 {
        let pair = children::<C>(store, node)->Ok_0;
        let child = chosen(pair.0, pair.1, path[0]);
        lemma_planted_balanced::<C>(store, held, child, path.drop_first(), value);
        let (lower, sub) = planted::<C>(store, child, path.drop_first(), value)->Ok_0;
        let grown = replaced(pair.0, pair.1, path[0], sub);
        lemma_inserted_balanced(lower, held, C::digest(grown.0, grown.1), grown.0, grown.1);
    }
}

/// How often `key` is on `stack`.
pub open spec fn occurrences(stack: Seq<Seq<u8>>, key: Seq<u8>) -> nat
    decreases stack.len(),
{
    if stack.len() == 0 {
        0
    } else {
        occurrences(stack.drop_last(), key) + (if stack.last() == key {
            1nat
        } else {
            0nat
        })
    }
}

/// A child on top of the stack occurs once more.
pub proof fn lemma_with_child_occurrences(stack: Seq<Seq<u8>>, value: ValueView, key: Seq<u8>)
    ensures
        occurrences(with_child(stack, value), key) == occurrences(stack, key) + (if names(
            value,
            key,
        ) {
            1nat
        } else {
            0nat
        }),
{
    match value {
        ValueView::Intermediate(child) => {
            assert(stack.push(child).drop_last() =~= stack);
        },
        ValueView::End(_) => {},
    }
}

/// Where the counts are right and every key on the stack is held as often as
/// it is on the stack, besides what `held` says, the release succeeds; the
/// counts are right afterwards with `held` alone; and what is left of the
/// store holds the pairs it held.
pub proof fn lemma_released_balanced(
    store: Store,
    held: spec_fn(Seq<u8>) -> nat,
    stack: Seq<Seq<u8>>,
)
    requires
        balanced_by(store, |key: Seq<u8>| held(key) + occurrences(stack, key)),
    ensures
        released_all(store, stack) is Ok,
        balanced_by(released_all(store, stack)->Ok_0, held),
        extends(released_all(store, stack)->Ok_0, store),
    decreases store.dom().len(), stack.len(),
{
    let loaded = |key: Seq<u8>| held(key) + occurrences(stack, key);
    if stack.len() == 0 {
        assert forall|key: Seq<u8>| #[trigger] store.contains_key(key) implies store[key].count
            >= PINNED || store[key].count == references(store, key) + held(key) by {
            assert(loaded(key) == held(key));
        }
        assert forall|key: Seq<u8>| !(#[trigger] store.contains_key(key)) implies held(key) == 0 by {
            assert(loaded(key) == held(key));
        }
    } else {
        let top = stack.last();
        let rest = stack.drop_last();
        assert(loaded(top) >= 1);
        assert(store.contains_key(top));
        let entry = store[top];
        if entry.count >= PINNED {
            let lighter = |key: Seq<u8>| held(key) + occurrences(rest, key);
            assert forall|key: Seq<u8>| #[trigger] store.contains_key(key) implies store[key].count
                >= PINNED || store[key].count == references(store, key) + lighter(key) by {
                assert(loaded(key) == lighter(key) + (if key == top {
                    1nat
                } else {
                    0nat
                }));
            }
            assert forall|key: Seq<u8>| !(#[trigger] store.contains_key(key)) implies lighter(key)
                == 0 by {
                assert(loaded(key) == 0);
            }
            lemma_released_balanced(store, held, rest);
        } else if entry.count > 1 {
            let lower = Entry { left: entry.left, right: entry.right, count: (entry.count - 1) as nat };
            let after = store.insert(top, lower);
            let lighter = |key: Seq<u8>| held(key) + occurrences(rest, key);
            assert(after.dom() =~= store.dom());
            assert forall|key: Seq<u8>| #[trigger] after.contains_key(key) implies after[key].count
                >= PINNED || after[key].count == references(after, key) + lighter(key) by {
                lemma_references_recount(store, top, lower, key);
                assert(store.contains_key(key));
                assert(loaded(key) == lighter(key) + (if key == top {
                    1nat
                } else {
                    0nat
                }));
            }
            assert forall|key: Seq<u8>| !(#[trigger] after.contains_key(key)) implies lighter(key)
                == 0 by {
                assert(!store.contains_key(key));
                assert(loaded(key) == 0);
            }
            assert forall|parent: Seq<u8>| #[trigger] after.contains_key(parent) implies resolvable(
                after,
                after[parent].left,
            ) && resolvable(after, after[parent].right) by {
                assert(store.contains_key(parent));
            }
            lemma_released_balanced(after, held, rest);
            let end = released_all(after, rest)->Ok_0;
            assert forall|key: Seq<u8>| #[trigger] end.contains_key(key) implies store.contains_key(
                key,
            ) && store[key].left == end[key].left && store[key].right == end[key].right by {
                assert(after.contains_key(key));
            }
        } else {
            assert(references(store, top) == 0 && loaded(top) == 1);
            lemma_unreferenced(store, top);
            let after = store.remove(top);
            let next = with_child(with_child(rest, entry.right), entry.left);
            let heavier = |key: Seq<u8>| held(key) + occurrences(next, key);
            assert forall|key: Seq<u8>| heavier(key) + (if key == top {
                1nat
            } else {
                0nat
            }) == loaded(key) + slots(entry.left, entry.right, key) by {
                lemma_with_child_occurrences(rest, entry.right, key);
                lemma_with_child_occurrences(with_child(rest, entry.right), entry.left, key);
            }
            assert(!names(entry.left, top) && !names(entry.right, top));
            assert forall|key: Seq<u8>| #[trigger] after.contains_key(key) implies after[key].count
                >= PINNED || after[key].count == references(after, key) + heavier(key) by {
                lemma_references_remove(store, top, key);
                assert(store.contains_key(key));
                assert(heavier(key) + (if key == top {
                    1nat
                } else {
                    0nat
                }) == loaded(key) + slots(entry.left, entry.right, key));
            }
            assert forall|key: Seq<u8>| !(#[trigger] after.contains_key(key)) implies heavier(key)
                == 0 by {
                assert(heavier(key) + (if key == top {
                    1nat
                } else {
                    0nat
                }) == loaded(key) + slots(entry.left, entry.right, key));
                if key != top {
                    assert(!store.contains_key(key));
                    assert(loaded(key) == 0);
                    assert(resolvable(store, entry.left) && resolvable(store, entry.right));
                }
            }
            assert forall|parent: Seq<u8>| #[trigger] after.contains_key(parent) implies resolvable(
                after,
                after[parent].left,
            ) && resolvable(after, after[parent].right) by {
                assert(store.contains_key(parent));
            }
            lemma_released_balanced(after, held, next);
            let end = released_all(after, next)->Ok_0;
            assert forall|key: Seq<u8>| #[trigger] end.contains_key(key) implies store.contains_key(
                key,
            ) && store[key].left == end[key].left && store[key].right == end[key].right by {
                assert(after.contains_key(key));
            }
        }
    }
}

/// What a release leaves of a store holds the pairs that the store held.
pub proof fn lemma_released_part(store: Store, stack: Seq<Seq<u8>>)
    requires
        released_all(store, stack) is Ok,
    ensures
        extends(released_all(store, stack)->Ok_0, store),
    decreases store.dom().len(), stack.len(),
{
    if stack.len() > 0 {
        let top = stack.last();
        let rest = stack.drop_last();
        let entry = store[top];
        if entry.count >= PINNED {
            lemma_released_part(store, rest);
        } else if entry.count > 1 {
            let lower = Entry { left: entry.left, right: entry.right, count: (entry.count - 1) as nat };
            let after = store.insert(top, lower);
            lemma_released_part(after, rest);
            let end = released_all(after, rest)->Ok_0;
            assert forall|key: Seq<u8>| #[trigger] end.contains_key(key) implies store.contains_key(
                key,
            ) && store[key].left == end[key].left && store[key].right == end[key].right by {
                assert(after.contains_key(key));
            }
        } else {
            let after = store.remove(top);
            let next = with_child(with_child(rest, entry.right), entry.left);
            lemma_released_part(after, next);
            let end = released_all(after, next)->Ok_0;
            assert forall|key: Seq<u8>| #[trigger] end.contains_key(key) implies store.contains_key(
                key,
            ) && store[key].left == end[key].left && store[key].right == end[key].right by {
                assert(after.contains_key(key));
            }
        }
    }
}

} // verus!
