//! Order independence: two writes on paths that part ways give the same root
//! in either order.

use crate::counting::{balanced, closed};
use crate::index::IndexSelection;
use crate::laws::{
    held_after_set, holds_root, law_set_keeps_counts, lemma_planted_extends, lemma_set_settles,
};
use crate::store::{extends, lemma_inserted_extends, pair_at, resolvable, Store, PINNED};
use crate::tidy::{agreeing, law_set_keeps_tidy, law_tidy_determined, tidy};
use crate::tree::{children, chosen, lookup, planted, replaced, set_outcome};
use crate::value::{blank_leaf, Construct, ValueView};
use vstd::multiset::Multiset;
use vstd::prelude::*;

verus! {

/// Whether two paths part ways: neither leads through the end of the other.
pub open spec fn forked(first: Seq<IndexSelection>, second: Seq<IndexSelection>) -> bool
    decreases first.len(),
{
    first.len() > 0 && second.len() > 0 && (first[0] != second[0] || forked(
        first.drop_first(),
        second.drop_first(),
    ))
}

/// The children of `node` as a write sees them, with two default leaves also
/// in place of an inner node that the store does not hold.
pub open spec fn kids<C: Construct>(store: Store, node: ValueView) -> (ValueView, ValueView) {
    match children::<C>(store, node) {
        Ok(pair) => pair,
        Err(_) => (blank_leaf::<C>(), blank_leaf::<C>()),
    }
}

/// The node that stands in place of `node` after `value` has been written at
/// the end of `path` below it.
pub open spec fn rebuilt<C: Construct>(
    store: Store,
    node: ValueView,
    path: Seq<IndexSelection>,
    value: ValueView,
) -> ValueView
    decreases path.len(),
{
    if path.len() == 0 {
        value
    } else {
        let pair = kids::<C>(store, node);
        let below = rebuilt::<C>(store, chosen(pair.0, pair.1, path[0]), path.drop_first(), value);
        let grown = replaced(pair.0, pair.1, path[0], below);
        ValueView::Intermediate(C::digest(grown.0, grown.1))
    }
}

/// The node that stands in place of `node` after two values have been written
/// at the ends of two paths that part ways below it.
pub open spec fn rebuilt_both<C: Construct>(
    store: Store,
    node: ValueView,
    first: Seq<IndexSelection>,
    one: ValueView,
    second: Seq<IndexSelection>,
    other: ValueView,
) -> ValueView
    decreases first.len(),
{
    if first.len() == 0 || second.len() == 0 {
        node
    } else {
        let pair = kids::<C>(store, node);
        if first[0] != second[0] {
            let below_first = rebuilt::<C>(
                store,
                chosen(pair.0, pair.1, first[0]),
                first.drop_first(),
                one,
            );
            let below_second = rebuilt::<C>(
                store,
                chosen(pair.0, pair.1, second[0]),
                second.drop_first(),
                other,
            );
            let grown = match first[0] {
                IndexSelection::Left => (below_first, below_second),
                IndexSelection::Right => (below_second, below_first),
            };
            ValueView::Intermediate(C::digest(grown.0, grown.1))
        } else {
            let below = rebuilt_both::<C>(
                store,
                chosen(pair.0, pair.1, first[0]),
                first.drop_first(),
                one,
                second.drop_first(),
                other,
            );
            let grown = replaced(pair.0, pair.1, first[0], below);
            ValueView::Intermediate(C::digest(grown.0, grown.1))
        }
    }
}

/// The node after two writes does not depend on which write is named first.
pub proof fn lemma_rebuilt_both_symmetric<C: Construct>(
    store: Store,
    node: ValueView,
    first: Seq<IndexSelection>,
    one: ValueView,
    second: Seq<IndexSelection>,
    other: ValueView,
)
    ensures
        rebuilt_both::<C>(store, node, first, one, second, other) == rebuilt_both::<C>(
            store,
            node,
            second,
            other,
            first,
            one,
        ),
    decreases first.len(),
{
    if first.len() > 0 && second.len() > 0 && first[0] == second[0] {
        let pair = kids::<C>(store, node);
        lemma_rebuilt_both_symmetric::<C>(
            store,
            chosen(pair.0, pair.1, first[0]),
            first.drop_first(),
            one,
            second.drop_first(),
            other,
        );
    }
}

/// The node that a planting returns is the rebuilt node.
pub proof fn lemma_planted_rebuilt<C: Construct>(
    store: Store,
    node: ValueView,
    path: Seq<IndexSelection>,
    value: ValueView,
)
    requires
        planted::<C>(store, node, path, value) is Ok,
    ensures
        planted::<C>(store, node, path, value)->Ok_0.1 == rebuilt::<C>(store, node, path, value),
    decreases path.len(),
{
    if path.len() > 0 {
        let pair = children::<C>(store, node)->Ok_0;
        lemma_planted_rebuilt::<C>(store, chosen(pair.0, pair.1, path[0]), path.drop_first(), value);
    }
}

/// Whether `mirror` holds, with the same pair, every inner node that `store`
/// holds on `path` below `node`.
pub open spec fn holds_below(
    mirror: Store,
    store: Store,
    node: ValueView,
    path: Seq<IndexSelection>,
) -> bool
    decreases path.len(),
{
    if path.len() == 0 {
        true
    } else {
        match node {
            ValueView::End(_) => true,
            ValueView::Intermediate(key) => store.contains_key(key) ==> mirror.contains_key(key)
                && pair_at(mirror, key) == pair_at(store, key) && holds_below(
                mirror,
                store,
                chosen(store[key].left, store[key].right, path[0]),
                path.drop_first(),
            ),
        }
    }
}

/// A store that extends another holds what the other holds on every path.
pub proof fn lemma_extension_holds_below(
    mirror: Store,
    store: Store,
    node: ValueView,
    path: Seq<IndexSelection>,
)
    requires
        extends(store, mirror),
    ensures
        holds_below(mirror, store, node, path),
    decreases path.len(),
{
    if path.len() > 0 {
        match node {
            ValueView::End(_) => {},
            ValueView::Intermediate(key) => {
                if store.contains_key(key) {
                    lemma_extension_holds_below(
                        mirror,
                        store,
                        chosen(store[key].left, store[key].right, path[0]),
                        path.drop_first(),
                    );
                }
            },
        }
    }
}

/// A closed part of a store holds what the store holds on every path below a
/// node that the part can resolve.
pub proof fn lemma_part_holds_below(
    part: Store,
    store: Store,
    node: ValueView,
    path: Seq<IndexSelection>,
)
    requires
        extends(part, store),
        closed(part),
        resolvable(part, node),
    ensures
        holds_below(part, store, node, path),
    decreases path.len(),
{
    if path.len() > 0 {
        match node {
            ValueView::End(_) => {},
            ValueView::Intermediate(key) => {
                assert(part.contains_key(key));
                lemma_part_holds_below(
                    part,
                    store,
                    chosen(part[key].left, part[key].right, path[0]),
                    path.drop_first(),
                );
            },
        }
    }
}

/// What is held below in one store is held below in a second, where the first
/// extends the second.
pub proof fn lemma_holds_below_narrows(
    mirror: Store,
    wide: Store,
    narrow: Store,
    node: ValueView,
    path: Seq<IndexSelection>,
)
    requires
        holds_below(mirror, wide, node, path),
        extends(narrow, wide),
    ensures
        holds_below(mirror, narrow, node, path),
    decreases path.len(),
{
    if path.len() > 0 {
        match node {
            ValueView::End(_) => {},
            ValueView::Intermediate(key) => {
                if narrow.contains_key(key) {
                    assert(wide.contains_key(key));
                    lemma_holds_below_narrows(
                        mirror,
                        wide,
                        narrow,
                        chosen(wide[key].left, wide[key].right, path[0]),
                        path.drop_first(),
                    );
                }
            },
        }
    }
}

/// A write gives the same node in a store as in a mirror of what the store
/// holds on the path, where the store holds every node on the path.
pub proof fn lemma_rebuilt_in_mirror<C: Construct>(
    mirror: Store,
    store: Store,
    node: ValueView,
    path: Seq<IndexSelection>,
    value: ValueView,
)
    requires
        holds_below(mirror, store, node, path),
        lookup(store, node, path) is Ok,
    ensures
        rebuilt::<C>(mirror, node, path, value) == rebuilt::<C>(store, node, path, value),
    decreases path.len(),
{
    if path.len() > 0 {
        match node {
            ValueView::End(_) => {
                lemma_rebuilt_below_leaf::<C>(mirror, store, path.drop_first(), value);
            },
            ValueView::Intermediate(key) => {
                lemma_rebuilt_in_mirror::<C>(
                    mirror,
                    store,
                    chosen(store[key].left, store[key].right, path[0]),
                    path.drop_first(),
                    value,
                );
            },
        }
    }
}

/// Below a leaf, a write gives the same node in every store.
pub proof fn lemma_rebuilt_below_leaf<C: Construct>(
    mirror: Store,
    store: Store,
    path: Seq<IndexSelection>,
    value: ValueView,
)
    ensures
        rebuilt::<C>(mirror, blank_leaf::<C>(), path, value) == rebuilt::<C>(
            store,
            blank_leaf::<C>(),
            path,
            value,
        ),
    decreases path.len(),
{
    if path.len() > 0 {
        lemma_rebuilt_below_leaf::<C>(mirror, store, path.drop_first(), value);
    }
}

/// A second write, made in a mirror of the store after a first write on a path
/// that parts ways with its own, gives the node of both writes.
pub proof fn lemma_second_write<C: Construct>(
    mirror: Store,
    store: Store,
    node: ValueView,
    first: Seq<IndexSelection>,
    one: ValueView,
    second: Seq<IndexSelection>,
    other: ValueView,
)
    requires
        planted::<C>(store, node, first, one) is Ok,
        holds_below(
            mirror,
            planted::<C>(store, node, first, one)->Ok_0.0,
            planted::<C>(store, node, first, one)->Ok_0.1,
            second,
        ),
        forked(first, second),
        lookup(store, node, second) is Ok,
    ensures
        rebuilt::<C>(mirror, planted::<C>(store, node, first, one)->Ok_0.1, second, other)
            == rebuilt_both::<C>(store, node, first, one, second, other),
    decreases first.len(),
{
    let pair = children::<C>(store, node)->Ok_0;
    let child = chosen(pair.0, pair.1, first[0]);
    let (lower, sub) = planted::<C>(store, child, first.drop_first(), one)->Ok_0;
    let grown = replaced(pair.0, pair.1, first[0], sub);
    let key = C::digest(grown.0, grown.1);
    let (after, top) = planted::<C>(store, node, first, one)->Ok_0;
    lemma_planted_extends::<C>(store, child, first.drop_first(), one);
    lemma_inserted_extends(lower, key, grown.0, grown.1);
    lemma_planted_rebuilt::<C>(store, child, first.drop_first(), one);
    assert(top == ValueView::Intermediate(key));
    assert(after.contains_key(key) && pair_at(after, key) == grown);
    assert(mirror.contains_key(key) && pair_at(mirror, key) == grown);
    assert(kids::<C>(mirror, top) == grown);
    assert(kids::<C>(store, node) == pair);
    assert(extends(store, after)) by {
        assert forall|k: Seq<u8>| #[trigger] store.contains_key(k) implies after.contains_key(k)
            && after[k].left == store[k].left && after[k].right == store[k].right by {
            assert(lower.contains_key(k));
        }
    }
    if first[0] != second[0] {
        let sibling = chosen(pair.0, pair.1, second[0]);
        assert(chosen(grown.0, grown.1, second[0]) == sibling);
        assert(holds_below(mirror, after, sibling, second.drop_first()));
        lemma_holds_below_narrows(mirror, after, store, sibling, second.drop_first());
        assert(lookup(store, sibling, second.drop_first()) is Ok) by {
            match node {
                ValueView::Intermediate(_) => {},
                ValueView::End(_) => {},
            }
        }
        lemma_rebuilt_in_mirror::<C>(mirror, store, sibling, second.drop_first(), other);
    } else {
        assert(chosen(grown.0, grown.1, second[0]) == sub);
        assert(holds_below(mirror, after, sub, second.drop_first()));
        lemma_holds_below_narrows(mirror, after, lower, sub, second.drop_first());
        assert(lookup(store, child, second.drop_first()) is Ok) by {
            match node {
                ValueView::Intermediate(_) => {},
                ValueView::End(_) => {},
            }
        }
        lemma_second_write::<C>(
            mirror,
            store,
            child,
            first.drop_first(),
            one,
            second.drop_first(),
            other,
        );
    }
}

/// The root after a `set` on a path that parts ways with the path of a `set`
/// made before it is the node of both writes.
proof fn lemma_two_sets<C: Construct>(
    store: Store,
    held: Multiset<Seq<u8>>,
    root: ValueView,
    first: Seq<IndexSelection>,
    one: ValueView,
    second: Seq<IndexSelection>,
    other: ValueView,
    owned: bool,
)
    requires
        owned ==> balanced(store, held) && holds_root(held, root, owned),
        forked(first, second),
        lookup(store, root, second) is Ok,
        set_outcome::<C>(store, root, first, one, owned) is Ok,
        set_outcome::<C>(
            set_outcome::<C>(store, root, first, one, owned)->Ok_0.0,
            set_outcome::<C>(store, root, first, one, owned)->Ok_0.1,
            second,
            other,
            owned,
        ) is Ok,
    ensures
        set_outcome::<C>(
            set_outcome::<C>(store, root, first, one, owned)->Ok_0.0,
            set_outcome::<C>(store, root, first, one, owned)->Ok_0.1,
            second,
            other,
            owned,
        )->Ok_0.1 == rebuilt_both::<C>(store, root, first, one, second, other),
{
    let (middle, top) = set_outcome::<C>(store, root, first, one, owned)->Ok_0;
    let grown = planted::<C>(store, root, first, one)->Ok_0.0;
    assert(planted::<C>(store, root, first, one)->Ok_0.1 == top);
    if owned {
        lemma_set_settles::<C>(store, held, root, first, one, owned);
        lemma_part_holds_below(middle, grown, top, second);
    } else {
        assert(extends(grown, middle));
        lemma_extension_holds_below(middle, grown, top, second);
    }
    lemma_second_write::<C>(middle, store, root, first, one, second, other);
    assert(top is Intermediate);
    lemma_planted_rebuilt::<C>(middle, top, second, other);
}

/// Order independence: two `set`s on paths that part ways give the same root
/// in either order, where both orders succeed and the store holds every node
/// on the two paths.
pub proof fn law_sets_commute<C: Construct>(
    store: Store,
    held: Multiset<Seq<u8>>,
    root: ValueView,
    first: Seq<IndexSelection>,
    one: ValueView,
    second: Seq<IndexSelection>,
    other: ValueView,
    owned: bool,
)
    requires
        owned ==> balanced(store, held) && holds_root(held, root, owned),
        forked(first, second),
        lookup(store, root, first) is Ok,
        lookup(store, root, second) is Ok,
        set_outcome::<C>(store, root, first, one, owned) is Ok,
        set_outcome::<C>(
            set_outcome::<C>(store, root, first, one, owned)->Ok_0.0,
            set_outcome::<C>(store, root, first, one, owned)->Ok_0.1,
            second,
            other,
            owned,
        ) is Ok,
        set_outcome::<C>(store, root, second, other, owned) is Ok,
        set_outcome::<C>(
            set_outcome::<C>(store, root, second, other, owned)->Ok_0.0,
            set_outcome::<C>(store, root, second, other, owned)->Ok_0.1,
            first,
            one,
            owned,
        ) is Ok,
    ensures
        set_outcome::<C>(
            set_outcome::<C>(store, root, first, one, owned)->Ok_0.0,
            set_outcome::<C>(store, root, first, one, owned)->Ok_0.1,
            second,
            other,
            owned,
        )->Ok_0.1 == set_outcome::<C>(
            set_outcome::<C>(store, root, second, other, owned)->Ok_0.0,
            set_outcome::<C>(store, root, second, other, owned)->Ok_0.1,
            first,
            one,
            owned,
        )->Ok_0.1,
{
    lemma_forked_symmetric(first, second);
    lemma_two_sets::<C>(store, held, root, first, one, second, other, owned);
    lemma_two_sets::<C>(store, held, root, second, other, first, one, owned);
    lemma_rebuilt_both_symmetric::<C>(store, root, first, one, second, other);
}

/// Whether no count of the store after a `set` on an owned tree has reached the
/// pin.
pub open spec fn unpinned_after<C: Construct>(
    store: Store,
    root: ValueView,
    path: Seq<IndexSelection>,
    value: ValueView,
) -> bool {
    forall|key: Seq<u8>| #[trigger]
        set_outcome::<C>(store, root, path, value, true)->Ok_0.0.contains_key(key)
            ==> set_outcome::<C>(store, root, path, value, true)->Ok_0.0[key].count < PINNED
}

/// Order independence of the contents: two `set`s on an owned tree, on paths
/// that part ways, leave the same root and the same store in either order,
/// where the store is tidy, both orders succeed, no count reaches the pin, and
/// the two stores hold no two different pairs under one key.
pub proof fn law_sets_commute_stores<C: Construct>(
    store: Store,
    held: Multiset<Seq<u8>>,
    root: ValueView,
    first: Seq<IndexSelection>,
    one: ValueView,
    second: Seq<IndexSelection>,
    other: ValueView,
)
    requires
        tidy(store, held),
        holds_root(held, root, true),
        forked(first, second),
        lookup(store, root, first) is Ok,
        lookup(store, root, second) is Ok,
        set_outcome::<C>(store, root, first, one, true) is Ok,
        set_outcome::<C>(
            set_outcome::<C>(store, root, first, one, true)->Ok_0.0,
            set_outcome::<C>(store, root, first, one, true)->Ok_0.1,
            second,
            other,
            true,
        ) is Ok,
        set_outcome::<C>(store, root, second, other, true) is Ok,
        set_outcome::<C>(
            set_outcome::<C>(store, root, second, other, true)->Ok_0.0,
            set_outcome::<C>(store, root, second, other, true)->Ok_0.1,
            first,
            one,
            true,
        ) is Ok,
        unpinned_after::<C>(store, root, first, one),
        unpinned_after::<C>(store, root, second, other),
        unpinned_after::<C>(
            set_outcome::<C>(store, root, first, one, true)->Ok_0.0,
            set_outcome::<C>(store, root, first, one, true)->Ok_0.1,
            second,
            other,
        ),
        unpinned_after::<C>(
            set_outcome::<C>(store, root, second, other, true)->Ok_0.0,
            set_outcome::<C>(store, root, second, other, true)->Ok_0.1,
            first,
            one,
        ),
        agreeing(
            set_outcome::<C>(
                set_outcome::<C>(store, root, first, one, true)->Ok_0.0,
                set_outcome::<C>(store, root, first, one, true)->Ok_0.1,
                second,
                other,
                true,
            )->Ok_0.0,
            set_outcome::<C>(
                set_outcome::<C>(store, root, second, other, true)->Ok_0.0,
                set_outcome::<C>(store, root, second, other, true)->Ok_0.1,
                first,
                one,
                true,
            )->Ok_0.0,
        ),
    ensures
        set_outcome::<C>(
            set_outcome::<C>(store, root, first, one, true)->Ok_0.0,
            set_outcome::<C>(store, root, first, one, true)->Ok_0.1,
            second,
            other,
            true,
        ) == set_outcome::<C>(
            set_outcome::<C>(store, root, second, other, true)->Ok_0.0,
            set_outcome::<C>(store, root, second, other, true)->Ok_0.1,
            first,
            one,
            true,
        ),
{
    broadcast use vstd::multiset::group_multiset_axioms;

    law_sets_commute::<C>(store, held, root, first, one, second, other, true);
    let (middle, top) = set_outcome::<C>(store, root, first, one, true)->Ok_0;
    let (end, last) = set_outcome::<C>(middle, top, second, other, true)->Ok_0;
    let (other_middle, other_top) = set_outcome::<C>(store, root, second, other, true)->Ok_0;
    let (other_end, other_last) = set_outcome::<C>(other_middle, other_top, first, one, true)->Ok_0;
    let held_middle = held_after_set(held, root, top, true);
    let held_other = held_after_set(held, root, other_top, true);
    law_set_keeps_tidy::<C>(store, held, root, first, one);
    law_set_keeps_counts::<C>(store, held, root, first, one, true);
    law_set_keeps_tidy::<C>(middle, held_middle, top, second, other);
    law_set_keeps_tidy::<C>(store, held, root, second, other);
    law_set_keeps_counts::<C>(store, held, root, second, other, true);
    law_set_keeps_tidy::<C>(other_middle, held_other, other_top, first, one);
    let held_end = held_after_set(held_middle, top, last, true);
    let held_other_end = held_after_set(held_other, other_top, other_last, true);
    assert(top is Intermediate && other_top is Intermediate);
    assert(held_end =~= held_other_end);
    law_tidy_determined(end, other_end, held_end);
}

/// Paths that part ways part ways whichever is named first.
pub proof fn lemma_forked_symmetric(first: Seq<IndexSelection>, second: Seq<IndexSelection>)
    requires
        forked(first, second),
    ensures
        forked(second, first),
    decreases first.len(),
{
    if first[0] == second[0] {
        lemma_forked_symmetric(first.drop_first(), second.drop_first());
    }
}

} // verus!
