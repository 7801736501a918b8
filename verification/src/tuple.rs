//! The tuple: a sequence of leaves of known length, at the bottom of a tree
//! that is just deep enough to hold them.

use crate::backend::{EmptyBackend, ReadBackend, WriteBackend};
use crate::error::Error;
use crate::index::{depth_of, lemma_path_len, path_of, Index};
use crate::raw::Raw;
use crate::store::{agrees, with_empties, Store};
use crate::tree::{drop_outcome, lookup, on_record, record_grown, set_outcome, trail};
use crate::value::{blank_leaf, empty_node, Construct, Dangling, Owned, RootStatus, Value, ValueView};
use vstd::prelude::*;

verus! {

/// `MerkleTuple` with owned root.
pub type OwnedMerkleTuple<C> = MerkleTuple<Owned, C>;

/// `MerkleTuple` with dangling root.
pub type DanglingMerkleTuple<C> = MerkleTuple<Dangling, C>;

/// Binary merkle tuple.
pub struct MerkleTuple<R: RootStatus, C: Construct> {
    raw: Raw<R, C>,
    empty_root: Value,
    len: usize,
}

/// What a tuple is in contracts.
pub struct TupleView {
    /// The root of the tree that holds the leaves.
    pub root: ValueView,
    /// The root of the empty tree of the same depth.
    pub empty: ValueView,
    /// The number of leaves.
    pub len: nat,
}

/// The first of `cap`, `2 cap`, `4 cap`, ... that is at least `len`.
pub open spec fn capacity_from(cap: nat, len: nat) -> nat
    decreases
            (if cap < len {
                len - cap
            } else {
                0
            }),
{
    if cap == 0 || cap >= len {
        cap
    } else {
        capacity_from(2 * cap, len)
    }
}

/// How many doublings lead from `cap` to `capacity_from(cap, len)`.
pub open spec fn levels_from(cap: nat, len: nat) -> nat
    decreases
            (if cap < len {
                len - cap
            } else {
                0
            }),
{
    if cap == 0 || cap >= len {
        0
    } else {
        1 + levels_from(2 * cap, len)
    }
}

/// The number of leaves at the bottom of a tuple of `len` leaves: the least
/// power of two that is at least `len`.
pub open spec fn capacity(len: nat) -> nat {
    capacity_from(1, len)
}

/// The depth of a tuple of `len` leaves: the logarithm of its capacity.
pub open spec fn levels(len: nat) -> nat {
    levels_from(1, len)
}

/// Whether the indices of a tuple of `len` leaves fit a machine word.
pub open spec fn fits(len: nat) -> bool {
    2 * capacity(len) <= usize::MAX
}

/// The capacity is at least what it started from.
pub proof fn lemma_capacity_from_grows(cap: nat, len: nat)
    ensures
        capacity_from(cap, len) >= cap,
        cap >= 1 ==> capacity_from(cap, len) >= len,
    decreases
            (if cap < len {
                len - cap
            } else {
                0
            }),
{
    if !(cap == 0 || cap >= len) {
        lemma_capacity_from_grows(2 * cap, len);
    }
}

/// The capacity grows with the length.
pub proof fn lemma_capacity_from_monotone(cap: nat, low: nat, high: nat)
    requires
        low <= high,
    ensures
        capacity_from(cap, low) <= capacity_from(cap, high),
    decreases
            (if cap < high {
                high - cap
            } else {
                0
            }),
{
    if !(cap == 0 || cap >= high) {
        if cap >= low {
            lemma_capacity_from_grows(2 * cap, high);
        } else {
            lemma_capacity_from_monotone(2 * cap, low, high);
        }
    }
}

/// Two to the power of `exponent`.
pub open spec fn pow2(exponent: nat) -> nat
    decreases exponent,
{
    if exponent == 0 {
        1
    } else {
        2 * pow2((exponent - 1) as nat)
    }
}

/// The capacity is what it started from, doubled once for each level.
pub proof fn lemma_capacity_is_power(cap: nat, len: nat)
    ensures
        capacity_from(cap, len) == cap * pow2(levels_from(cap, len)),
    decreases
            (if cap < len {
                len - cap
            } else {
                0
            }),
{
    if !(cap == 0 || cap >= len) {
        lemma_capacity_is_power(2 * cap, len);
        let steps = levels_from(2 * cap, len);
        assert(levels_from(cap, len) == steps + 1);
        assert(pow2(steps + 1) == 2 * pow2(steps));
        assert((2 * cap) * pow2(steps) == cap * (2 * pow2(steps))) by (nonlinear_arith);
    } else {
        assert(levels_from(cap, len) == 0);
        assert(pow2(0) == 1);
        assert(cap * 1 == cap);
    }
}

/// The nodes numbered from a power of two up to the next are at the depth of
/// the exponent.
pub proof fn lemma_depth_of_level(n: nat, exponent: nat)
    requires
        pow2(exponent) <= n < 2 * pow2(exponent),
    ensures
        depth_of(n) == exponent,
    decreases exponent,
{
    if exponent > 0 {
        lemma_depth_of_level(n / 2, (exponent - 1) as nat);
    }
}

/// The path to a leaf of a tuple has one selection for each level of the tuple.
pub proof fn lemma_leaf_path_len(len: nat, i: nat)
    requires
        i < capacity(len),
    ensures
        leaf_path(len, i).len() == levels(len),
{
    lemma_capacity_is_power(1, len);
    lemma_depth_of_level(capacity(len) + i, levels(len));
    lemma_path_len(capacity(len) + i);
}

/// The path to leaf `i` of a tuple of `len` leaves.
pub open spec fn leaf_path(len: nat, i: nat) -> Seq<crate::index::IndexSelection> {
    path_of(capacity(len) + i)
}

/// What `get(i)` returns on a tuple: the bytes of leaf `i`.
pub open spec fn tuple_get_outcome(store: Store, tuple: TupleView, i: nat) -> Result<Seq<u8>, Error> {
    if !fits(tuple.len) || i >= tuple.len {
        Err(Error::InvalidIndex)
    } else {
        match lookup(store, tuple.root, leaf_path(tuple.len, i)) {
            Err(error) => Err(error),
            Ok(Some(ValueView::End(bytes))) => Ok(bytes),
            Ok(_) => Err(Error::CorruptedDatabase),
        }
    }
}

/// What `get_value(i)` returns on a tuple: the value at the place of leaf `i`,
/// which may be the root of a tree of its own.
pub open spec fn tuple_value_outcome(store: Store, tuple: TupleView, i: nat) -> Result<
    ValueView,
    Error,
> {
    if !fits(tuple.len) || i >= tuple.len {
        Err(Error::InvalidIndex)
    } else {
        match lookup(store, tuple.root, leaf_path(tuple.len, i)) {
            Err(error) => Err(error),
            Ok(Some(value)) => Ok(value),
            Ok(None) => Err(Error::CorruptedDatabase),
        }
    }
}

/// The store and the tuple after `set(i, bytes)`.
pub open spec fn tuple_set_outcome<C: Construct>(
    store: Store,
    tuple: TupleView,
    i: nat,
    bytes: Seq<u8>,
    owned: bool,
) -> Result<(Store, TupleView), Error> {
    if !fits(tuple.len) || i >= tuple.len {
        Err(Error::InvalidIndex)
    } else {
        match set_outcome::<C>(
            store,
            tuple.root,
            leaf_path(tuple.len, i),
            ValueView::End(bytes),
            owned,
        ) {
            Err(error) => Err(error),
            Ok((after, root)) => Ok((after, TupleView { root, empty: tuple.empty, len: tuple.len })),
        }
    }
}

/// The store and the root after a fresh tree has taken `root` as its root.
pub open spec fn adopted<C: Construct>(store: Store, root: ValueView, owned: bool) -> Result<
    (Store, ValueView),
    Error,
> {
    set_outcome::<C>(store, blank_leaf::<C>(), path_of(1), root, owned)
}

/// The store and the tuple after `create(len)`: the empty tree of the depth
/// that `len` leaves need.
pub open spec fn tuple_create_outcome<C: Construct>(store: Store, len: nat, owned: bool) -> Result<
    (Store, TupleView),
    Error,
> {
    if !fits(len) {
        Err(Error::InvalidIndex)
    } else {
        match with_empties::<C>(store, levels(len)) {
            Err(error) => Err(error),
            Ok(pinned) => {
                let empty = empty_node::<C>(levels(len));
                match adopted::<C>(pinned, empty, owned) {
                    Err(error) => Err(error),
                    Ok((after, root)) => Ok((after, TupleView { root, empty, len })),
                }
            },
        }
    }
}

/// The store and the tuple after the tree has been given one more level: the
/// old root becomes the left child of the new root, and the empty tree of the
/// old depth the right child.
pub open spec fn tuple_extended<C: Construct>(store: Store, tuple: TupleView, owned: bool) -> Result<
    (Store, TupleView),
    Error,
> {
    match with_empties::<C>(store, levels(tuple.len + 1)) {
        Err(error) => Err(error),
        Ok(pinned) => match set_outcome::<C>(
            pinned,
            blank_leaf::<C>(),
            path_of(2),
            tuple.root,
            owned,
        ) {
            Err(error) => Err(error),
            Ok((first, half)) => match set_outcome::<C>(first, half, path_of(3), tuple.empty, owned) {
                Err(error) => Err(error),
                Ok((second, root)) => match drop_outcome(second, tuple.root, owned) {
                    Err(error) => Err(error),
                    Ok(after) => Ok(
                        (
                            after,
                            TupleView {
                                root,
                                empty: empty_node::<C>(levels(tuple.len + 1)),
                                len: tuple.len,
                            },
                        ),
                    ),
                },
            },
        },
    }
}

/// The store and the tuple after `push(bytes)`: the tree is given one more
/// level where it is full, and the new leaf is written behind the others.
pub open spec fn tuple_push_outcome<C: Construct>(
    store: Store,
    tuple: TupleView,
    bytes: Seq<u8>,
    owned: bool,
) -> Result<(Store, TupleView), Error> {
    if !fits(tuple.len + 1) {
        Err(Error::InvalidIndex)
    } else {
        let roomy = if levels(tuple.len + 1) > levels(tuple.len) {
            tuple_extended::<C>(store, tuple, owned)
        } else {
            Ok((store, tuple))
        };
        match roomy {
            Err(error) => Err(error),
            Ok((grown, wide)) => match set_outcome::<C>(
                grown,
                wide.root,
                leaf_path(tuple.len + 1, tuple.len),
                ValueView::End(bytes),
                owned,
            ) {
                Err(error) => Err(error),
                Ok((after, root)) => Ok(
                    (after, TupleView { root, empty: wide.empty, len: tuple.len + 1 }),
                ),
            },
        }
    }
}

/// The store and the tuple after the tree has lost its top level: the left
/// child of the old root becomes the root.
pub open spec fn tuple_shrunk<C: Construct>(store: Store, tuple: TupleView, owned: bool) -> Result<
    (Store, TupleView),
    Error,
> {
    match lookup(store, tuple.root, path_of(2)) {
        Err(error) => Err(error),
        Ok(None) => Err(Error::CorruptedDatabase),
        Ok(Some(left)) => match with_empties::<C>(store, levels((tuple.len - 1) as nat)) {
            Err(error) => Err(error),
            Ok(pinned) => match adopted::<C>(pinned, left, owned) {
                Err(error) => Err(error),
                Ok((kept, root)) => match drop_outcome(kept, tuple.root, owned) {
                    Err(error) => Err(error),
                    Ok(after) => Ok(
                        (
                            after,
                            TupleView {
                                root,
                                empty: empty_node::<C>(levels((tuple.len - 1) as nat)),
                                len: tuple.len,
                            },
                        ),
                    ),
                },
            },
        },
    }
}

/// The store, the tuple and the value after `pop()`: the last leaf is read and
/// reset to the default leaf, and the tree loses a level where the leaves that
/// are left fit in half of it.
pub open spec fn tuple_pop_outcome<C: Construct>(store: Store, tuple: TupleView, owned: bool) -> Result<
    (Store, TupleView, Option<Seq<u8>>),
    Error,
> {
    if tuple.len == 0 {
        Ok((store, tuple, None))
    } else {
        let last = (tuple.len - 1) as nat;
        match tuple_get_outcome(store, tuple, last) {
            Err(error) => Err(error),
            Ok(bytes) => match set_outcome::<C>(
                store,
                tuple.root,
                leaf_path(tuple.len, last),
                blank_leaf::<C>(),
                owned,
            ) {
                Err(error) => Err(error),
                Ok((cleared, root)) => {
                    let wide = TupleView { root, empty: tuple.empty, len: tuple.len };
                    let tight = if levels(last) < levels(tuple.len) {
                        tuple_shrunk::<C>(cleared, wide, owned)
                    } else {
                        Ok((cleared, wide))
                    };
                    match tight {
                        Err(error) => Err(error),
                        Ok((after, narrow)) => Ok(
                            (
                                after,
                                TupleView { root: narrow.root, empty: narrow.empty, len: last },
                                Some(bytes),
                            ),
                        ),
                    }
                },
            },
        }
    }
}

/// The capacity and the depth of a tuple of `len` leaves, where they fit.
pub fn shape_of(len: usize) -> (r: Option<(usize, usize)>)
    ensures
        match r {
            Some((cap, depth)) => fits(len as nat) && cap == capacity(len as nat) && depth
                == levels(len as nat) && cap >= 1 && cap >= len,
            None => !fits(len as nat),
        },
{
    let mut cap: usize = 1;
    let mut depth: usize = 0;
    while cap < len
        invariant
            1 <= cap,
            2 * cap <= usize::MAX,
            depth < cap,
            capacity_from(cap as nat, len as nat) == capacity(len as nat),
            levels_from(cap as nat, len as nat) + depth == levels(len as nat),
        decreases
                (if cap < len {
                    len - cap
                } else {
                    0
                }),
    {
        if cap > usize::MAX / 4 {
            proof {
                lemma_capacity_from_grows(2 * cap as nat, len as nat);
            }
            return None;
        }
        cap = 2 * cap;
        depth = depth + 1;
    }
    Some((cap, depth))
}

impl<R: RootStatus, C: Construct> View for MerkleTuple<R, C> {
    type V = TupleView;

    closed spec fn view(&self) -> TupleView {
        TupleView { root: self.raw@, empty: self.empty_root@, len: self.len as nat }
    }
}

impl<R: RootStatus, C: Construct> MerkleTuple<R, C> {
    /// Root of the current merkle tuple.
    pub fn root(&self) -> (r: Value)
        ensures
            r@ == self@.root,
    {
        self.raw.root()
    }

    /// Root of the empty tree of the depth of this tuple.
    pub fn empty_root(&self) -> (r: Value)
        ensures
            r@ == self@.empty,
    {
        self.empty_root.clone()
    }

    /// Length of the tuple.
    pub fn len(&self) -> (r: usize)
        ensures
            r == self@.len,
    {
        self.len
    }

    /// Leak the current tuple: its root, its empty root and its length.
    pub fn leak(self) -> (r: (Value, Value, usize))
        ensures
            r.0@ == self@.root,
            r.1@ == self@.empty,
            r.2 == self@.len,
    {
        (self.raw.metadata(), self.empty_root, self.len)
    }

    /// Initialize from a previously leaked one.
    pub fn from_leaked(root: Value, empty_root: Value, len: usize) -> (r: Self)
        ensures
            r@ == (TupleView { root: root@, empty: empty_root@, len: len as nat }),
    {
        MerkleTuple { raw: Raw::from_leaked(root), empty_root, len }
    }

    /// Drop the current tuple.
    pub fn drop<DB: WriteBackend>(self, db: &mut DB) -> (r: Result<(), Error>)
        requires
            old(db).inv(),
        ensures
            final(db).inv(),
            final(db).faultless() == old(db).faultless(),
            agrees(
                old(db).faultless(),
                r,
                final(db).store(),
                drop_outcome(old(db).store(), self@.root, R::owned()),
            ),
    {
        self.raw.drop(db)
    }

    /// Create a new tuple of `len` default leaves.
    pub fn create<DB: WriteBackend + EmptyBackend<C>>(db: &mut DB, len: usize) -> (r: Result<
        Self,
        Error,
    >)
        requires
            old(db).inv(),
        ensures
            final(db).inv(),
            final(db).faultless() == old(db).faultless(),
            agrees(
                old(db).faultless(),
                r,
                (final(db).store(), r->Ok_0@),
                tuple_create_outcome::<C>(old(db).store(), len as nat, R::owned()),
            ),
    {
        let (_, depth) = match shape_of(len) {
            Some(shape) => shape,
            None => {
                return Err(Error::InvalidIndex);
            },
        };
        let empty = db.empty_at(depth)?;
        let mut raw = Raw::<R, C>::default();
        raw.set(db, Index::root(), empty.clone())?;
        Ok(MerkleTuple { raw, empty_root: empty, len })
    }

    /// Gives the tree one more level.
    fn extend<DB: WriteBackend + EmptyBackend<C>>(&mut self, db: &mut DB, depth: usize) -> (r: Result<
        (),
        Error,
    >)
        requires
            old(db).inv(),
            depth == levels(old(self)@.len + 1),
        ensures
            final(db).inv(),
            final(db).faultless() == old(db).faultless(),
            agrees(
                old(db).faultless(),
                r,
                (final(db).store(), final(self)@),
                tuple_extended::<C>(old(db).store(), old(self)@, R::owned()),
            ),
    {
        let empty = db.empty_at(depth)?;
        let mut raw = Raw::<R, C>::default();
        raw.set(db, Index::root().left(), self.raw.root())?;
        raw.set(db, Index::root().right(), self.empty_root.clone())?;
        core::mem::swap(&mut self.raw, &mut raw);
        raw.drop(db)?;
        self.empty_root = empty;
        Ok(())
    }

    /// Takes the top level from the tree.
    fn shrink<DB: WriteBackend + EmptyBackend<C>>(&mut self, db: &mut DB, depth: usize) -> (r: Result<
        (),
        Error,
    >)
        requires
            old(db).inv(),
            old(self)@.len >= 1,
            depth == levels((old(self)@.len - 1) as nat),
        ensures
            final(db).inv(),
            final(db).faultless() == old(db).faultless(),
            agrees(
                old(db).faultless(),
                r,
                (final(db).store(), final(self)@),
                tuple_shrunk::<C>(old(db).store(), old(self)@, R::owned()),
            ),
    {
        let left = match self.raw.get(db, Index::root().left()) {
            Ok(Some(left)) => left,
            Ok(None) => {
                return Err(Error::CorruptedDatabase);
            },
            Err(error) => {
                return Err(error);
            },
        };
        let empty = db.empty_at(depth)?;
        let mut raw = Raw::<R, C>::default();
        raw.set(db, Index::root(), left)?;
        core::mem::swap(&mut self.raw, &mut raw);
        raw.drop(db)?;
        self.empty_root = empty;
        Ok(())
    }

    /// Push a new value to the tuple.
    pub fn push<DB: WriteBackend + EmptyBackend<C>>(&mut self, db: &mut DB, value: Vec<u8>) -> (r:
        Result<(), Error>)
        requires
            old(db).inv(),
        ensures
            final(db).inv(),
            final(db).faultless() == old(db).faultless(),
            agrees(
                old(db).faultless(),
                r,
                (final(db).store(), final(self)@),
                tuple_push_outcome::<C>(old(db).store(), old(self)@, value@, R::owned()),
            ),
    {
        let len = self.len;
        if len == usize::MAX {
            proof {
                lemma_capacity_from_grows(1, (len + 1) as nat);
            }
            return Err(Error::InvalidIndex);
        }
        let (cap, depth) = match shape_of(len + 1) {
            Some(shape) => shape,
            None => {
                return Err(Error::InvalidIndex);
            },
        };
        proof {
            lemma_capacity_from_monotone(1, len as nat, (len + 1) as nat);
        }
        let (_, depth_before) = match shape_of(len) {
            Some(shape) => shape,
            None => {
                return Err(Error::InvalidIndex);
            },
        };
        if depth > depth_before {
            self.extend(db, depth)?;
        }
        let raw_index = Index::from_one(cap + len)?;
        self.raw.set(db, raw_index, Value::End(value))?;
        self.len = len + 1;
        Ok(())
    }

    /// Pop a value from the tuple.
    pub fn pop<DB: WriteBackend + EmptyBackend<C>>(&mut self, db: &mut DB) -> (r: Result<
        Option<Vec<u8>>,
        Error,
    >)
        requires
            old(db).inv(),
        ensures
            final(db).inv(),
            final(db).faultless() == old(db).faultless(),
            agrees(
                old(db).faultless(),
                r,
                (
                    final(db).store(),
                    final(self)@,
                    match r->Ok_0 {
                        Some(bytes) => Some(bytes@),
                        None => None,
                    },
                ),
                tuple_pop_outcome::<C>(old(db).store(), old(self)@, R::owned()),
            ),
    {
        let len = self.len;
        if len == 0 {
            return Ok(None);
        }
        let value = self.get(db, len - 1)?;
        let (cap, depth) = match shape_of(len) {
            Some(shape) => shape,
            None => {
                return Err(Error::InvalidIndex);
            },
        };
        let raw_index = Index::from_one(cap + (len - 1))?;
        self.raw.set(db, raw_index, Value::End(C::default_end()))?;
        proof {
            lemma_capacity_from_monotone(1, (len - 1) as nat, len as nat);
        }
        let (_, depth_after) = match shape_of(len - 1) {
            Some(shape) => shape,
            None => {
                return Err(Error::InvalidIndex);
            },
        };
        if depth_after < depth {
            self.shrink(db, depth_after)?;
        }
        self.len = len - 1;
        Ok(Some(value))
    }

    /// Get value at index.
    pub fn get<DB: ReadBackend>(&self, db: &mut DB, index: usize) -> (r: Result<Vec<u8>, Error>)
        requires
            old(db).inv(),
        ensures
            final(db).inv(),
            final(db).store() == old(db).store(),
            final(db).faultless() == old(db).faultless(),
            agrees(
                old(db).faultless(),
                r,
                r->Ok_0@,
                tuple_get_outcome(old(db).store(), self@, index as nat),
            ),
            forall|key: Seq<u8>| final(db).recording(key) == old(db).recording(key),
            record_grown(old(db).witnessed(), final(db).witnessed(), old(db).store()),
            r is Ok && (forall|key: Seq<u8>| old(db).recording(key)) ==> on_record(
                final(db).witnessed(),
                old(db).store(),
                trail(old(db).store(), self@.root, leaf_path(self@.len, index as nat)),
            ),
    {
        let (cap, _) = match shape_of(self.len) {
            Some(shape) => shape,
            None => {
                return Err(Error::InvalidIndex);
            },
        };
        if index >= self.len {
            return Err(Error::InvalidIndex);
        }
        let raw_index = Index::from_one(cap + index)?;
        match self.raw.get(db, raw_index) {
            Err(error) => Err(error),
            Ok(Some(Value::End(bytes))) => Ok(bytes),
            Ok(_) => Err(Error::CorruptedDatabase),
        }
    }

    /// Get the value at the place of a leaf, be it a leaf or the root of a tree.
    pub fn get_value<DB: ReadBackend>(&self, db: &mut DB, index: usize) -> (r: Result<Value, Error>)
        requires
            old(db).inv(),
        ensures
            final(db).inv(),
            final(db).store() == old(db).store(),
            final(db).faultless() == old(db).faultless(),
            agrees(
                old(db).faultless(),
                r,
                r->Ok_0@,
                tuple_value_outcome(old(db).store(), self@, index as nat),
            ),
            forall|key: Seq<u8>| final(db).recording(key) == old(db).recording(key),
            record_grown(old(db).witnessed(), final(db).witnessed(), old(db).store()),
            r is Ok && (forall|key: Seq<u8>| old(db).recording(key)) ==> on_record(
                final(db).witnessed(),
                old(db).store(),
                trail(old(db).store(), self@.root, leaf_path(self@.len, index as nat)),
            ),
    {
        let (cap, _) = match shape_of(self.len) {
            Some(shape) => shape,
            None => {
                return Err(Error::InvalidIndex);
            },
        };
        if index >= self.len {
            return Err(Error::InvalidIndex);
        }
        let raw_index = Index::from_one(cap + index)?;
        match self.raw.get(db, raw_index) {
            Err(error) => Err(error),
            Ok(Some(value)) => Ok(value),
            Ok(None) => Err(Error::CorruptedDatabase),
        }
    }

    /// Set value at index.
    pub fn set<DB: WriteBackend>(&mut self, db: &mut DB, index: usize, value: Vec<u8>) -> (r: Result<
        (),
        Error,
    >)
        requires
            old(db).inv(),
        ensures
            final(db).inv(),
            final(db).faultless() == old(db).faultless(),
            agrees(
                old(db).faultless(),
                r,
                (final(db).store(), final(self)@),
                tuple_set_outcome::<C>(old(db).store(), old(self)@, index as nat, value@, R::owned()),
            ),
            r is Err ==> final(self)@ == old(self)@,
    {
        let (cap, _) = match shape_of(self.len) {
            Some(shape) => shape,
            None => {
                return Err(Error::InvalidIndex);
            },
        };
        if index >= self.len {
            return Err(Error::InvalidIndex);
        }
        let raw_index = Index::from_one(cap + index)?;
        self.raw.set(db, raw_index, Value::End(value))
    }
}

} // verus!
