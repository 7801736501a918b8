//! What reading and writing a tree mean, over the model of a backend.

use crate::error::Error;
use crate::index::IndexSelection;
use crate::store::{inserted, pair_at, released_value, rootified_value, Store};
use crate::value::{blank_leaf, Construct, ValueView};
use vstd::prelude::*;

verus! {

/// The child that `selection` picks.
pub open spec fn chosen(left: ValueView, right: ValueView, selection: IndexSelection) -> ValueView {
    match selection {
        IndexSelection::Left => left,
        IndexSelection::Right => right,
    }
}

/// The pair with the child that `selection` picks replaced by `value`.
pub open spec fn replaced(
    left: ValueView,
    right: ValueView,
    selection: IndexSelection,
    value: ValueView,
) -> (ValueView, ValueView) {
    match selection {
        IndexSelection::Left => (value, right),
        IndexSelection::Right => (left, value),
    }
}

/// The value at the end of `path` below `node`: `Ok(None)` where the path runs
/// into a leaf before its end, `NotFound` where it runs into an inner node that
/// the store does not hold.
pub open spec fn lookup(store: Store, node: ValueView, path: Seq<IndexSelection>) -> Result<
    Option<ValueView>,
    Error,
>
    decreases path.len(),
{
    if path.len() == 0 {
        Ok(Some(node))
    } else {
        match node {
            ValueView::End(_) => Ok(None),
            ValueView::Intermediate(key) => if store.contains_key(key) {
                lookup(
                    store,
                    chosen(store[key].left, store[key].right, path[0]),
                    path.drop_first(),
                )
            } else {
                Err(Error::NotFound)
            },
        }
    }
}

/// The keys of the inner nodes that a read on `path` below `node` fetches, in
/// the order of the read.
pub open spec fn trail(store: Store, node: ValueView, path: Seq<IndexSelection>) -> Seq<Seq<u8>>
    decreases path.len(),
{
    if path.len() == 0 {
        Seq::empty()
    } else {
        match node {
            ValueView::End(_) => Seq::empty(),
            ValueView::Intermediate(key) => if store.contains_key(key) {
                seq![key] + trail(
                    store,
                    chosen(store[key].left, store[key].right, path[0]),
                    path.drop_first(),
                )
            } else {
                Seq::empty()
            },
        }
    }
}

/// Whether each of `keys` is on record with the pair that `store` holds for it.
pub open spec fn on_record(
    witnessed: Map<Seq<u8>, (ValueView, ValueView)>,
    store: Store,
    keys: Seq<Seq<u8>>,
) -> bool {
    forall|i: int|
        0 <= i < keys.len() ==> witnessed.contains_key(#[trigger] keys[i]) && witnessed[keys[i]]
            == pair_at(store, keys[i])
}

/// Whether the record `after` is the record `before` with pairs of `store`
/// put on it: nothing is taken off, and what is new or changed is what the
/// store holds.
pub open spec fn record_grown(
    before: Map<Seq<u8>, (ValueView, ValueView)>,
    after: Map<Seq<u8>, (ValueView, ValueView)>,
    store: Store,
) -> bool {
    &&& forall|key: Seq<u8>| #[trigger] before.contains_key(key) ==> after.contains_key(key)
    &&& forall|key: Seq<u8>| #[trigger]
        after.contains_key(key) ==> (before.contains_key(key) && after[key] == before[key]) || (
        store.contains_key(key) && after[key] == pair_at(store, key))
}

/// The children of `node` as a write sees them: those stored for an inner
/// node, two default leaves in place of a leaf.
pub open spec fn children<C: Construct>(store: Store, node: ValueView) -> Result<
    (ValueView, ValueView),
    Error,
> {
    match node {
        ValueView::End(_) => Ok((blank_leaf::<C>(), blank_leaf::<C>())),
        ValueView::Intermediate(key) => if store.contains_key(key) {
            Ok((store[key].left, store[key].right))
        } else {
            Err(Error::NotFound)
        },
    }
}

/// Whether a write finds every inner node on `path` below `node`: the error of
/// the first that the store does not hold.
pub open spec fn readable<C: Construct>(store: Store, node: ValueView, path: Seq<IndexSelection>) -> Result<
    (),
    Error,
>
    decreases path.len(),
{
    if path.len() == 0 {
        Ok(())
    } else {
        match children::<C>(store, node) {
            Err(error) => Err(error),
            Ok((left, right)) => readable::<C>(
                store,
                chosen(left, right, path[0]),
                path.drop_first(),
            ),
        }
    }
}

/// Whether `set` finds all that it reads before it writes: the value, where it
/// is an inner node, and every inner node on the path. A leaf root that is
/// replaced as a whole reads nothing.
pub open spec fn set_reads<C: Construct>(
    store: Store,
    root: ValueView,
    path: Seq<IndexSelection>,
    value: ValueView,
) -> Result<(), Error> {
    if root is End && path.len() == 0 {
        Ok(())
    } else if value matches ValueView::Intermediate(key) && !store.contains_key(key) {
        Err(Error::NotFound)
    } else {
        readable::<C>(store, root, path)
    }
}

/// One level of a write in progress: the selection taken there, and the two
/// children found there.
pub struct Frame {
    pub selection: IndexSelection,
    pub left: ValueView,
    pub right: ValueView,
}

/// The result of a write one level up: the node of `frame` with its selected
/// child replaced by the result below is hashed and inserted.
pub open spec fn grafted<C: Construct>(frame: Frame, below: Result<(Store, ValueView), Error>) -> Result<
    (Store, ValueView),
    Error,
> {
    match below {
        Err(error) => Err(error),
        Ok((store, value)) => {
            let pair = replaced(frame.left, frame.right, frame.selection, value);
            let key = C::digest(pair.0, pair.1);
            match inserted(store, key, pair.0, pair.1) {
                Err(error) => Err(error),
                Ok(grown) => Ok((grown, ValueView::Intermediate(key))),
            }
        },
    }
}

/// The store and the new node after `value` has been written at the end of
/// `path` below `node`: every node on the path is read from `store` first, then
/// the new nodes are inserted from the bottom up.
pub open spec fn planted<C: Construct>(
    store: Store,
    node: ValueView,
    path: Seq<IndexSelection>,
    value: ValueView,
) -> Result<(Store, ValueView), Error>
    decreases path.len(),
{
    if path.len() == 0 {
        Ok((store, value))
    } else {
        match children::<C>(store, node) {
            Err(error) => Err(error),
            Ok((left, right)) => grafted::<C>(
                Frame { selection: path[0], left, right },
                planted::<C>(store, chosen(left, right, path[0]), path.drop_first(), value),
            ),
        }
    }
}

/// The result of grafting `frames` onto `below`, the last frame first.
pub open spec fn wrapped<C: Construct>(
    frames: Seq<Frame>,
    below: Result<(Store, ValueView), Error>,
) -> Result<(Store, ValueView), Error>
    decreases frames.len(),
{
    if frames.len() == 0 {
        below
    } else {
        wrapped::<C>(frames.drop_last(), grafted::<C>(frames.last(), below))
    }
}

/// Grafting onto a failure passes the failure on.
pub proof fn lemma_wrapped_err<C: Construct>(frames: Seq<Frame>, error: Error)
    ensures
        wrapped::<C>(frames, Err(error)) == Err::<(Store, ValueView), Error>(error),
    decreases frames.len(),
{
    if frames.len() > 0 {
        lemma_wrapped_err::<C>(frames.drop_last(), error);
    }
}

/// The store and the new root after `set`, for a tree with root `root`.
///
/// A leaf root that is replaced as a whole takes the value as it is; an owned
/// tree then takes a reference on it. Otherwise a value that is an inner node
/// must be stored; the value is planted at the end of the path; and an owned
/// tree takes a reference on the new root and gives back the one on the old.
pub open spec fn set_outcome<C: Construct>(
    store: Store,
    root: ValueView,
    path: Seq<IndexSelection>,
    value: ValueView,
    owned: bool,
) -> Result<(Store, ValueView), Error> {
    if root is End && path.len() == 0 {
        if owned {
            match rootified_value(store, value) {
                Err(error) => Err(error),
                Ok(kept) => Ok((kept, value)),
            }
        } else {
            Ok((store, value))
        }
    } else if value matches ValueView::Intermediate(key) && !store.contains_key(key) {
        Err(Error::NotFound)
    } else {
        match planted::<C>(store, root, path, value) {
            Err(error) => Err(error),
            Ok((grown, top)) => if owned {
                match rootified_value(grown, top) {
                    Err(error) => Err(error),
                    Ok(kept) => match released_value(kept, root) {
                        Err(error) => Err(error),
                        Ok(swept) => Ok((swept, top)),
                    },
                }
            } else {
                Ok((grown, top))
            },
        }
    }
}

/// The store after a tree with root `root` has been dropped: an owned tree
/// gives back the reference on its root.
pub open spec fn drop_outcome(store: Store, root: ValueView, owned: bool) -> Result<Store, Error> {
    if owned {
        released_value(store, root)
    } else {
        Ok(store)
    }
}

} // verus!
