//! The mathematical model of a backend: a map from keys to pairs of children,
//! each with the number of references held on it.

use crate::error::Error;
use crate::value::{empty_node, Construct, ValueView};
use vstd::prelude::*;

verus! {

/// What a backend holds under one key.
pub struct Entry {
    pub left: ValueView,
    pub right: ValueView,
    /// The references held on the entry: one for each stored parent slot that
    /// names it, and one for each rootify that no unrootify has taken back.
    pub count: nat,
}

/// The contents of a backend.
pub type Store = Map<Seq<u8>, Entry>;

/// A count that has reached this value is pinned: it is neither raised nor
/// lowered any more, and its entry is never removed.
pub const PINNED: u64 = 0xffff_ffff_ffff_ffff;

/// A count after one more reference.
pub open spec fn raised(count: nat) -> nat {
    if count >= PINNED {
        count
    } else {
        count + 1
    }
}

/// The store after one more reference on `value`, where it is a stored inner node.
pub open spec fn bumped(store: Store, value: ValueView) -> Store {
    match value {
        ValueView::Intermediate(key) => if store.contains_key(key) {
            store.insert(
                key,
                Entry { left: store[key].left, right: store[key].right, count: raised(store[key].count) },
            )
        } else {
            store
        },
        ValueView::End(_) => store,
    }
}

/// Whether `value` can be a child in `store`: a leaf, or an inner node that is stored.
pub open spec fn resolvable(store: Store, value: ValueView) -> bool {
    match value {
        ValueView::Intermediate(key) => store.contains_key(key),
        ValueView::End(_) => true,
    }
}

/// The store after `insert(key, (left, right))`, or the error of the insert.
///
/// A key that is stored with this very pair is left alone. A key that is stored
/// with another pair is refused as corruption. A child that is an inner node
/// the store does not hold is not found. Otherwise each child that is an inner
/// node gains a reference, and the pair is stored with no reference of its own.
pub open spec fn inserted(store: Store, key: Seq<u8>, left: ValueView, right: ValueView) -> Result<
    Store,
    Error,
> {
    if store.contains_key(key) {
        if store[key].left == left && store[key].right == right {
            Ok(store)
        } else {
            Err(Error::CorruptedDatabase)
        }
    } else if !resolvable(store, left) || !resolvable(store, right) {
        Err(Error::NotFound)
    } else {
        Ok(bumped(bumped(store, left), right).insert(key, Entry { left, right, count: 0 }))
    }
}

/// Whether `big` holds every pair that `small` holds, under the same key.
pub open spec fn extends(small: Store, big: Store) -> bool {
    forall|key: Seq<u8>| #[trigger]
        small.contains_key(key) ==> big.contains_key(key) && big[key].left == small[key].left
            && big[key].right == small[key].right
}

/// One more reference changes no pair.
pub proof fn lemma_bumped_extends(store: Store, value: ValueView)
    ensures
        extends(store, bumped(store, value)),
        extends(bumped(store, value), store),
        bumped(store, value).dom() == store.dom(),
{
    assert(bumped(store, value).dom() =~= store.dom());
}

/// An insert that succeeds keeps every pair, and holds the pair it was given.
pub proof fn lemma_inserted_extends(store: Store, key: Seq<u8>, left: ValueView, right: ValueView)
    requires
        inserted(store, key, left, right) is Ok,
    ensures
        extends(store, inserted(store, key, left, right)->Ok_0),
        inserted(store, key, left, right)->Ok_0.contains_key(key),
        inserted(store, key, left, right)->Ok_0[key].left == left,
        inserted(store, key, left, right)->Ok_0[key].right == right,
{
    if !store.contains_key(key) {
        lemma_bumped_extends(store, left);
        lemma_bumped_extends(bumped(store, left), right);
    }
}

/// The store after `rootify(key)`; a key that is not stored is not found.
pub open spec fn rootified(store: Store, key: Seq<u8>) -> Result<Store, Error> {
    if store.contains_key(key) {
        Ok(bumped(store, ValueView::Intermediate(key)))
    } else {
        Err(Error::NotFound)
    }
}

/// The store after one more reference on `value`, where it is an inner node.
pub open spec fn rootified_value(store: Store, value: ValueView) -> Result<Store, Error> {
    match value {
        ValueView::Intermediate(key) => rootified(store, key),
        ValueView::End(_) => Ok(store),
    }
}

/// Whether a call that returned `result` and left the state `after` did what
/// `outcome` says: a success is the success of `outcome`, and a faultless
/// backend succeeds and fails exactly as `outcome` does.
pub open spec fn agrees<T, V>(
    faultless: bool,
    result: Result<T, Error>,
    after: V,
    outcome: Result<V, Error>,
) -> bool {
    &&& result is Ok ==> outcome == Ok::<V, Error>(after)
    &&& faultless ==> match outcome {
        Ok(_) => result is Ok,
        Err(error) => result is Err && result->Err_0 == error,
    }
}

/// The stack of keys to release, with `value` on top where it is an inner node.
pub open spec fn with_child(stack: Seq<Seq<u8>>, value: ValueView) -> Seq<Seq<u8>> {
    match value {
        ValueView::Intermediate(key) => stack.push(key),
        ValueView::End(_) => stack,
    }
}

/// The store after one reference has been taken from each key on `stack`, top
/// first; a key to release that is not stored is not found.
///
/// A pinned entry stays as it is. An entry with more than one reference loses
/// one. An entry with one reference or none is removed, and its children are
/// then released, the left one first.
pub open spec fn released_all(store: Store, stack: Seq<Seq<u8>>) -> Result<Store, Error>
    decreases store.dom().len(), stack.len(),
{
    if stack.len() == 0 {
        Ok(store)
    } else if !store.dom().finite() {
        Err(Error::NotFound)
    } else {
        let key = stack.last();
        let rest = stack.drop_last();
        if !store.contains_key(key) {
            Err(Error::NotFound)
        } else {
            let entry = store[key];
            if entry.count >= PINNED {
                released_all(store, rest)
            } else if entry.count > 1 {
                released_all(
                    store.insert(
                        key,
                        Entry { left: entry.left, right: entry.right, count: (entry.count - 1) as nat },
                    ),
                    rest,
                )
            } else {
                released_all(
                    store.remove(key),
                    with_child(with_child(rest, entry.right), entry.left),
                )
            }
        }
    }
}

/// The store after `unrootify(key)`, or the error of the release.
pub open spec fn released(store: Store, key: Seq<u8>) -> Result<Store, Error> {
    released_all(store, seq![key])
}

/// The store after one reference has been taken from `value`, where it is an
/// inner node.
pub open spec fn released_value(store: Store, value: ValueView) -> Result<Store, Error> {
    match value {
        ValueView::Intermediate(key) => released(store, key),
        ValueView::End(_) => Ok(store),
    }
}

/// The store after the pair has been stored under `key` with a pinned count; a
/// key that is already taken by another pair is refused as corruption.
pub open spec fn pinned_at(store: Store, key: Seq<u8>, left: ValueView, right: ValueView) -> Result<
    Store,
    Error,
> {
    if store.contains_key(key) && !(store[key].left == left && store[key].right == right) {
        Err(Error::CorruptedDatabase)
    } else {
        Ok(store.insert(key, Entry { left, right, count: PINNED as nat }))
    }
}

/// The store after the inner nodes of the empty trees of depth 1 to `depth`
/// have been pinned in it, the lowest first.
pub open spec fn with_empties<C: Construct>(store: Store, depth: nat) -> Result<Store, Error>
    decreases depth,
{
    if depth == 0 {
        Ok(store)
    } else {
        match with_empties::<C>(store, (depth - 1) as nat) {
            Err(error) => Err(error),
            Ok(lower) => {
                let below = empty_node::<C>((depth - 1) as nat);
                pinned_at(lower, C::digest(below, below), below, below)
            },
        }
    }
}

/// Where the empties up to some depth cannot be pinned, those up to a greater
/// depth cannot either.
pub proof fn lemma_with_empties_fails<C: Construct>(store: Store, low: nat, high: nat)
    requires
        low <= high,
        with_empties::<C>(store, low) is Err,
    ensures
        with_empties::<C>(store, high) == with_empties::<C>(store, low),
    decreases high,
{
    if low < high {
        lemma_with_empties_fails::<C>(store, low, (high - 1) as nat);
    }
}

/// Whether the pairs of `proofs` are those of `store`, where both hold a key.
pub open spec fn compatible(store: Store, proofs: Map<Seq<u8>, (ValueView, ValueView)>) -> bool {
    forall|key: Seq<u8>|
        #![trigger store.contains_key(key)]
        #![trigger proofs.contains_key(key)]
        store.contains_key(key) && proofs.contains_key(key) ==> pair_at(store, key) == proofs[key]
}

/// The store with the pairs of `proofs` added, each with one reference, where
/// the store does not hold their key yet.
pub open spec fn merged(store: Store, proofs: Map<Seq<u8>, (ValueView, ValueView)>) -> Store {
    Map::new(
        |key: Seq<u8>| store.contains_key(key) || proofs.contains_key(key),
        |key: Seq<u8>|
            if store.contains_key(key) {
                store[key]
            } else {
                Entry { left: proofs[key].0, right: proofs[key].1, count: 1 }
            },
    )
}

/// The store after it has been populated with `proofs` for the root `root`:
/// the pairs are added, and one reference is taken on the root. Proofs that
/// put another pair under a key of the store are refused as corruption.
pub open spec fn populated(
    store: Store,
    proofs: Map<Seq<u8>, (ValueView, ValueView)>,
    root: ValueView,
) -> Result<Store, Error> {
    if !compatible(store, proofs) {
        Err(Error::CorruptedDatabase)
    } else {
        rootified_value(merged(store, proofs), root)
    }
}

/// The pair stored under `key`.
pub open spec fn pair_at(store: Store, key: Seq<u8>) -> (ValueView, ValueView) {
    (store[key].left, store[key].right)
}

} // verus!
