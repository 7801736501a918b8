//! Tidy stores: stores that hold nothing but what is referenced, so that they
//! are empty when nothing is held any more.

use crate::counting::{
    balanced, balanced_by, closed, left_parents, lemma_bumped_balanced, lemma_parents_finite,
    lemma_planted_balanced, lemma_released_balanced, lemma_released_part, names, occurrences,
    references, right_parents,
};
use crate::index::IndexSelection;
use crate::laws::{held_after_set, holds_root, law_set_keeps_counts, lemma_balanced_pointwise};
use crate::store::{
    bumped, extends, inserted, lemma_bumped_extends, released, released_all, resolvable, rootified,
    rootified_value, with_child, Entry, Store, PINNED,
};
use crate::tree::{children, chosen, planted, replaced, set_outcome};
use crate::value::{Construct, ValueView};
use vstd::multiset::Multiset;
use vstd::prelude::*;

verus! {

/// Whether `child` is the key of a child of the entry under `parent`.
pub open spec fn is_child(store: Store, parent: Seq<u8>, child: Seq<u8>) -> bool {
    store.contains_key(parent) && (names(store[parent].left, child) || names(
        store[parent].right,
        child,
    ))
}

/// Whether `rank` puts every entry above its children.
pub open spec fn ranked(store: Store, rank: spec_fn(Seq<u8>) -> nat) -> bool {
    forall|parent: Seq<u8>, child: Seq<u8>| #[trigger]
        is_child(store, parent, child) ==> rank(child) < rank(parent)
}

/// Whether no entry is below itself.
pub open spec fn acyclic(store: Store) -> bool {
    exists|rank: spec_fn(Seq<u8>) -> nat| #[trigger] ranked(store, rank)
}

/// Whether every entry has a reference, and none is pinned.
pub open spec fn all_referenced(store: Store) -> bool {
    forall|key: Seq<u8>| #[trigger] store.contains_key(key) ==> 1 <= store[key].count < PINNED
}

/// Whether the store is tidy, where the keys of `held` are held from outside:
/// its counts are right, no entry is below itself, every entry has a
/// reference, and none is pinned.
pub open spec fn tidy(store: Store, held: Multiset<Seq<u8>>) -> bool {
    &&& balanced(store, held)
    &&& acyclic(store)
    &&& all_referenced(store)
}

/// A finite set that is not empty has a member of highest rank.
pub proof fn lemma_highest(keys: Set<Seq<u8>>, rank: spec_fn(Seq<u8>) -> nat) -> (top: Seq<u8>)
    requires
        keys.finite(),
        keys.len() > 0,
    ensures
        keys.contains(top),
        forall|key: Seq<u8>| keys.contains(key) ==> rank(key) <= rank(top),
    decreases keys.len(),
{
    let first = keys.choose();
    let rest = keys.remove(first);
    if rest.len() == 0 {
        assert forall|key: Seq<u8>| keys.contains(key) implies rank(key) <= rank(first) by {
            if key != first {
                assert(rest.contains(key));
            }
        }
        first
    } else {
        let best = lemma_highest(rest, rank);
        let top = if rank(first) >= rank(best) {
            first
        } else {
            best
        };
        assert forall|key: Seq<u8>| keys.contains(key) implies rank(key) <= rank(top) by {
            if key != first {
                assert(rest.contains(key));
            }
        }
        top
    }
}

/// A key that a stored entry has as a child is referenced.
pub proof fn lemma_child_is_referenced(store: Store, parent: Seq<u8>, child: Seq<u8>)
    requires
        store.dom().finite(),
        is_child(store, parent, child),
    ensures
        references(store, child) >= 1,
{
    lemma_parents_finite(store, child);
    if names(store[parent].left, child) {
        assert(left_parents(store, child).contains(parent));
    } else {
        assert(right_parents(store, child).contains(parent));
    }
}

/// A key that is referenced is the child of a stored entry.
pub proof fn lemma_referenced_has_parent(store: Store, child: Seq<u8>) -> (parent: Seq<u8>)
    requires
        store.dom().finite(),
        references(store, child) >= 1,
    ensures
        is_child(store, parent, child),
{
    lemma_parents_finite(store, child);
    if left_parents(store, child).len() > 0 {
        let parent = left_parents(store, child).choose();
        assert(left_parents(store, child).contains(parent));
        parent
    } else {
        let parent = right_parents(store, child).choose();
        assert(right_parents(store, child).contains(parent));
        parent
    }
}

/// Refcount zeroing: a tidy store in which nothing is held from outside any
/// more is empty.
pub proof fn law_unheld_is_empty(store: Store)
    requires
        tidy(store, Multiset::empty()),
    ensures
        store == Map::<Seq<u8>, Entry>::empty(),
{
    broadcast use vstd::multiset::group_multiset_axioms;

    if store.dom().len() > 0 {
        let rank = choose|rank: spec_fn(Seq<u8>) -> nat| #[trigger] ranked(store, rank);
        let top = lemma_highest(store.dom(), rank);
        assert(store.contains_key(top));
        assert(references(store, top) >= 1);
        let parent = lemma_referenced_has_parent(store, top);
        assert(store.dom().contains(parent));
        assert(rank(top) < rank(parent));
    }
    assert(store.dom() =~= Set::<Seq<u8>>::empty()) by {
        if !(store.dom() =~= Set::<Seq<u8>>::empty()) {
            let key = choose|key: Seq<u8>| store.dom().contains(key);
            assert(store.dom().contains(key));
            assert(store.dom().len() > 0);
        }
    }
    assert(store =~= Map::<Seq<u8>, Entry>::empty());
}

/// A release that succeeds leaves every entry with a reference, where every
/// entry had one.
pub proof fn lemma_released_referenced(store: Store, stack: Seq<Seq<u8>>)
    requires
        all_referenced(store),
        released_all(store, stack) is Ok,
    ensures
        all_referenced(released_all(store, stack)->Ok_0),
    decreases store.dom().len(), stack.len(),
{
    if stack.len() > 0 {
        let top = stack.last();
        let rest = stack.drop_last();
        let entry = store[top];
        if entry.count >= PINNED {
        } else if entry.count > 1 {
            let lower = Entry { left: entry.left, right: entry.right, count: (entry.count - 1) as nat };
            let after = store.insert(top, lower);
            assert(after.dom() =~= store.dom());
            assert forall|key: Seq<u8>| #[trigger] after.contains_key(key) implies 1
                <= after[key].count < PINNED by {
                assert(store.contains_key(key));
            }
            lemma_released_referenced(after, rest);
        } else {
            let after = store.remove(top);
            assert forall|key: Seq<u8>| #[trigger] after.contains_key(key) implies 1
                <= after[key].count < PINNED by {
                assert(store.contains_key(key));
            }
            lemma_released_referenced(
                after,
                with_child(with_child(rest, entry.right), entry.left),
            );
        }
    }
}

/// A store that holds only pairs of an acyclic store is acyclic.
pub proof fn lemma_part_acyclic(part: Store, whole: Store)
    requires
        extends(part, whole),
        acyclic(whole),
    ensures
        acyclic(part),
{
    let rank = choose|rank: spec_fn(Seq<u8>) -> nat| #[trigger] ranked(whole, rank);
    assert forall|parent: Seq<u8>, child: Seq<u8>| #[trigger]
        is_child(part, parent, child) implies rank(child) < rank(parent) by {
        assert(part.contains_key(parent));
        assert(is_child(whole, parent, child));
    }
    assert(ranked(part, rank));
}

/// Giving back a reference that is held keeps a tidy store tidy.
pub proof fn law_release_keeps_tidy(store: Store, held: Multiset<Seq<u8>>, key: Seq<u8>)
    requires
        tidy(store, held),
        held.count(key) >= 1,
    ensures
        released(store, key) is Ok,
        tidy(released(store, key)->Ok_0, held.remove(key)),
{
    broadcast use vstd::multiset::group_multiset_axioms;

    let before = |k: Seq<u8>| held.count(k);
    let target = held.remove(key);
    let last = |k: Seq<u8>| target.count(k);
    let loaded = |k: Seq<u8>| last(k) + occurrences(seq![key], k);
    assert forall|k: Seq<u8>| #[trigger] before(k) == loaded(k) by {
        assert(seq![key].drop_last() =~= Seq::<Seq<u8>>::empty());
        assert(occurrences(seq![key], k) == (if k == key {
            1nat
        } else {
            0nat
        })) by {
            reveal_with_fuel(occurrences, 2);
        }
    }
    lemma_balanced_pointwise(store, before, loaded);
    lemma_released_balanced(store, last, seq![key]);
    lemma_released_referenced(store, seq![key]);
    lemma_part_acyclic(released(store, key)->Ok_0, store);
}

/// Taking one more reference on a stored key keeps a tidy store tidy, where
/// the count does not reach the pin.
pub proof fn law_rootify_keeps_tidy(store: Store, held: Multiset<Seq<u8>>, key: Seq<u8>)
    requires
        tidy(store, held),
        store.contains_key(key),
        store[key].count + 1 < PINNED,
    ensures
        rootified(store, key) is Ok,
        tidy(rootified(store, key)->Ok_0, held.insert(key)),
{
    broadcast use vstd::multiset::group_multiset_axioms;

    let value = ValueView::Intermediate(key);
    let after = bumped(store, value);
    let before = |k: Seq<u8>| held.count(k);
    lemma_bumped_balanced(store, before, value);
    let more = |k: Seq<u8>|
        before(k) + (if names(value, k) {
            1nat
        } else {
            0nat
        });
    let target = held.insert(key);
    lemma_balanced_pointwise(after, more, |k: Seq<u8>| target.count(k));
    lemma_bumped_extends(store, value);
    lemma_part_acyclic(after, store);
    assert forall|k: Seq<u8>| #[trigger] after.contains_key(k) implies 1 <= after[k].count
        < PINNED by {
        assert(store.contains_key(k));
    }
}

/// An insert that succeeds keeps an acyclic, closed store acyclic.
pub proof fn lemma_inserted_acyclic(store: Store, key: Seq<u8>, left: ValueView, right: ValueView)
    requires
        acyclic(store),
        closed(store),
        inserted(store, key, left, right) is Ok,
    ensures
        acyclic(inserted(store, key, left, right)->Ok_0),
{
    let after = inserted(store, key, left, right)->Ok_0;
    let rank = choose|rank: spec_fn(Seq<u8>) -> nat| #[trigger] ranked(store, rank);
    if store.contains_key(key) {
        assert(ranked(after, rank));
    } else {
        let below = |value: ValueView|
            match value {
                ValueView::Intermediate(child) => rank(child),
                ValueView::End(_) => 0nat,
            };
        let above = below(left) + below(right) + 1;
        let lifted = |k: Seq<u8>|
            if k == key {
                above
            } else {
                rank(k)
            };
        lemma_bumped_extends(store, left);
        lemma_bumped_extends(bumped(store, left), right);
        assert forall|parent: Seq<u8>, child: Seq<u8>| #[trigger]
            is_child(after, parent, child) implies lifted(child) < lifted(parent) by {
            if parent == key {
                assert(child != key);
            } else {
                assert(store.contains_key(parent));
                assert(is_child(store, parent, child));
                assert(resolvable(store, store[parent].left) && resolvable(
                    store,
                    store[parent].right,
                ));
                assert(child != key);
            }
        }
        assert(ranked(after, lifted));
    }
}

/// Planting a value keeps an acyclic store with right counts acyclic.
pub proof fn lemma_planted_acyclic<C: Construct>(
    store: Store,
    held: spec_fn(Seq<u8>) -> nat,
    node: ValueView,
    path: Seq<IndexSelection>,
    value: ValueView,
)
    requires
        balanced_by(store, held),
        acyclic(store),
        planted::<C>(store, node, path, value) is Ok,
    ensures
        acyclic(planted::<C>(store, node, path, value)->Ok_0.0),
    decreases path.len(),
{
    if path.len() > 0 {
        let pair = children::<C>(store, node)->Ok_0;
        let child = chosen(pair.0, pair.1, path[0]);
        lemma_planted_acyclic::<C>(store, held, child, path.drop_first(), value);
        lemma_planted_balanced::<C>(store, held, child, path.drop_first(), value);
        let (lower, sub) = planted::<C>(store, child, path.drop_first(), value)->Ok_0;
        let grown = replaced(pair.0, pair.1, path[0], sub);
        lemma_inserted_acyclic(lower, C::digest(grown.0, grown.1), grown.0, grown.1);
    }
}

/// After a planting in a store in which every entry has a reference, every
/// entry has one but, at most, the node that the planting returned.
pub proof fn lemma_planted_referenced<C: Construct>(
    store: Store,
    held: spec_fn(Seq<u8>) -> nat,
    node: ValueView,
    path: Seq<IndexSelection>,
    value: ValueView,
)
    requires
        balanced_by(store, held),
        forall|key: Seq<u8>| #[trigger] store.contains_key(key) ==> store[key].count >= 1,
        planted::<C>(store, node, path, value) is Ok,
    ensures
        forall|key: Seq<u8>| #[trigger]
            planted::<C>(store, node, path, value)->Ok_0.0.contains_key(key) ==> planted::<C>(
                store,
                node,
                path,
                value,
            )->Ok_0.0[key].count >= 1 || (path.len() > 0 && names(
                planted::<C>(store, node, path, value)->Ok_0.1,
                key,
            )),
    decreases path.len(),
{
    if path.len() > 0 {
        let pair = children::<C>(store, node)->Ok_0;
        let child = chosen(pair.0, pair.1, path[0]);
        lemma_planted_referenced::<C>(store, held, child, path.drop_first(), value);
        lemma_planted_balanced::<C>(store, held, child, path.drop_first(), value);
        let (lower, sub) = planted::<C>(store, child, path.drop_first(), value)->Ok_0;
        let grown = replaced(pair.0, pair.1, path[0], sub);
        let key = C::digest(grown.0, grown.1);
        let after = inserted(lower, key, grown.0, grown.1)->Ok_0;
        assert(names(grown.0, sub->Intermediate_0) || names(grown.1, sub->Intermediate_0) || sub
            is End);
        if lower.contains_key(key) {
            assert forall|k: Seq<u8>| #[trigger] after.contains_key(k) implies after[k].count >= 1
                || names(ValueView::Intermediate(key), k) by {
                if after[k].count < 1 && k != key {
                    assert(names(sub, k));
                    assert(is_child(lower, key, k));
                    lemma_child_is_referenced(lower, key, k);
                }
            }
        } else {
            let once = bumped(lower, grown.0);
            let twice = bumped(once, grown.1);
            assert(once.dom() =~= lower.dom());
            assert(twice.dom() =~= lower.dom());
            assert forall|k: Seq<u8>| #[trigger] after.contains_key(k) implies after[k].count >= 1
                || names(ValueView::Intermediate(key), k) by {
                if k != key {
                    assert(lower.contains_key(k));
                    assert(twice[k].count >= once[k].count);
                    assert(once[k].count >= lower[k].count);
                    if lower[k].count < 1 {
                        assert(names(sub, k));
                        assert(names(grown.0, k) || names(grown.1, k));
                    }
                }
            }
        }
    }
}

/// A `set` on an owned tree that succeeds keeps a tidy store tidy, where no
/// count reaches the pin: the tree then holds its new root in place of its old
/// one.
pub proof fn law_set_keeps_tidy<C: Construct>(
    store: Store,
    held: Multiset<Seq<u8>>,
    root: ValueView,
    path: Seq<IndexSelection>,
    value: ValueView,
)
    requires
        tidy(store, held),
        holds_root(held, root, true),
        set_outcome::<C>(store, root, path, value, true) is Ok,
        forall|key: Seq<u8>| #[trigger]
            set_outcome::<C>(store, root, path, value, true)->Ok_0.0.contains_key(key)
                ==> set_outcome::<C>(store, root, path, value, true)->Ok_0.0[key].count < PINNED,
    ensures
        tidy(
            set_outcome::<C>(store, root, path, value, true)->Ok_0.0,
            held_after_set(
                held,
                root,
                set_outcome::<C>(store, root, path, value, true)->Ok_0.1,
                true,
            ),
        ),
{
    let before = |k: Seq<u8>| held.count(k);
    let (after, top) = set_outcome::<C>(store, root, path, value, true)->Ok_0;
    law_set_keeps_counts::<C>(store, held, root, path, value, true);
    if root is End && path.len() == 0 {
        lemma_bumped_extends(store, value);
        lemma_part_acyclic(after, store);
        assert forall|k: Seq<u8>| #[trigger] after.contains_key(k) implies 1 <= after[k].count by {
            assert(store.contains_key(k));
        }
    } else {
        let grown = planted::<C>(store, root, path, value)->Ok_0.0;
        lemma_planted_acyclic::<C>(store, before, root, path, value);
        lemma_planted_referenced::<C>(store, before, root, path, value);
        let kept = rootified_value(grown, top)->Ok_0;
        lemma_bumped_extends(grown, top);
        lemma_part_acyclic(kept, grown);
        assert(kept.dom() =~= grown.dom());
        assert forall|k: Seq<u8>| #[trigger] kept.contains_key(k) implies kept[k].count >= 1 by {
            assert(grown.contains_key(k));
            if path.len() == 0 {
                assert(grown == store);
            }
        }
        match root {
            ValueView::End(_) => {},
            ValueView::Intermediate(old) => {
                lemma_released_floor(kept, seq![old]);
                assert(extends(after, kept)) by {
                    lemma_released_part(kept, seq![old]);
                }
                lemma_part_acyclic(after, kept);
            },
        }
    }
}

/// Whether two stores hold the same pair under every key that both hold.
pub open spec fn agreeing(one: Store, other: Store) -> bool {
    forall|key: Seq<u8>|
        #![trigger one.contains_key(key)]
        #![trigger other.contains_key(key)]
        one.contains_key(key) && other.contains_key(key) ==> one[key].left == other[key].left
            && one[key].right == other[key].right
}

/// Every pair of a tidy store is a pair of every tidy store that agrees with
/// it and in which the same keys are held.
pub proof fn lemma_tidy_within(one: Store, other: Store, held: Multiset<Seq<u8>>)
    requires
        tidy(one, held),
        tidy(other, held),
        agreeing(one, other),
    ensures
        extends(one, other),
{
    let rank = choose|rank: spec_fn(Seq<u8>) -> nat| #[trigger] ranked(one, rank);
    let odd = one.dom().filter(
        |key: Seq<u8>|
            !(other.contains_key(key) && other[key].left == one[key].left && other[key].right
                == one[key].right),
    );
    assert(odd.subset_of(one.dom()));
    vstd::set_lib::lemma_set_subset_finite(one.dom(), odd);
    if odd.len() > 0 {
        let top = lemma_highest(odd, rank);
        assert(one.contains_key(top));
        if held.count(top) >= 1 {
            assert(other.contains_key(top));
        } else {
            assert(references(one, top) >= 1);
            let parent = lemma_referenced_has_parent(one, top);
            assert(rank(top) < rank(parent));
            assert(!odd.contains(parent));
            assert(one.dom().contains(parent));
            assert(other.contains_key(parent));
            assert(resolvable(other, other[parent].left) && resolvable(other, other[parent].right));
            assert(other.contains_key(top));
        }
        assert(false);
    }
    assert forall|key: Seq<u8>| #[trigger] one.contains_key(key) implies other.contains_key(key)
        && other[key].left == one[key].left && other[key].right == one[key].right by {
        if !(other.contains_key(key) && other[key].left == one[key].left && other[key].right
            == one[key].right) {
            assert(one.dom().contains(key));
            assert(odd.contains(key));
            assert(odd.len() > 0);
        }
    }
}

/// A tidy store is determined by what is held: two tidy stores in which the
/// same keys are held, and which hold no two different pairs under one key,
/// are the same store.
pub proof fn law_tidy_determined(one: Store, other: Store, held: Multiset<Seq<u8>>)
    requires
        tidy(one, held),
        tidy(other, held),
        agreeing(one, other),
    ensures
        one == other,
{
    lemma_tidy_within(one, other, held);
    lemma_tidy_within(other, one, held);
    assert(one.dom() =~= other.dom());
    assert forall|key: Seq<u8>| #[trigger] one.contains_key(key) implies one[key] == other[key] by {
        assert(other.contains_key(key));
        assert(left_parents(one, key) =~= left_parents(other, key)) by {
            assert forall|parent: Seq<u8>|
                left_parents(one, key).contains(parent) <==> left_parents(other, key).contains(
                    parent,
                ) by {
                if one.contains_key(parent) {
                    assert(other.contains_key(parent));
                }
                if other.contains_key(parent) {
                    assert(one.contains_key(parent));
                }
            }
        }
        assert(right_parents(one, key) =~= right_parents(other, key)) by {
            assert forall|parent: Seq<u8>|
                right_parents(one, key).contains(parent) <==> right_parents(other, key).contains(
                    parent,
                ) by {
                if one.contains_key(parent) {
                    assert(other.contains_key(parent));
                }
                if other.contains_key(parent) {
                    assert(one.contains_key(parent));
                }
            }
        }
    }
    assert(one =~= other);
}

/// A release that succeeds leaves every entry with a reference, where every
/// entry had one, pinned or not.
pub proof fn lemma_released_floor(store: Store, stack: Seq<Seq<u8>>)
    requires
        forall|key: Seq<u8>| #[trigger] store.contains_key(key) ==> store[key].count >= 1,
        released_all(store, stack) is Ok,
    ensures
        forall|key: Seq<u8>| #[trigger]
            released_all(store, stack)->Ok_0.contains_key(key) ==> released_all(
                store,
                stack,
            )->Ok_0[key].count >= 1,
    decreases store.dom().len(), stack.len(),
{
    if stack.len() > 0 {
        let top = stack.last();
        let rest = stack.drop_last();
        let entry = store[top];
        if entry.count >= PINNED {
            lemma_released_floor(store, rest);
        } else if entry.count > 1 {
            let lower = Entry { left: entry.left, right: entry.right, count: (entry.count - 1) as nat };
            let after = store.insert(top, lower);
            assert(after.dom() =~= store.dom());
            assert forall|key: Seq<u8>| #[trigger] after.contains_key(key) implies after[key].count
                >= 1 by {
                assert(store.contains_key(key));
            }
            lemma_released_floor(after, rest);
        } else {
            let after = store.remove(top);
            assert forall|key: Seq<u8>| #[trigger] after.contains_key(key) implies after[key].count
                >= 1 by {
                assert(store.contains_key(key));
            }
            lemma_released_floor(after, with_child(with_child(rest, entry.right), entry.left));
        }
    }
}

} // verus!
