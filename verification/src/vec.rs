//! The vector: a tuple that can grow and shrink, under a root that commits to
//! the leaves and to their number.

use crate::backend::{EmptyBackend, ReadBackend, WriteBackend};
use crate::error::Error;
use crate::index::{path_of, Index};
use crate::raw::Raw;
use crate::scalar::{decode_le, le_value, number_end, number_leaf};
use crate::store::{agrees, with_empties, Store};
use crate::tree::{drop_outcome, lookup, on_record, record_grown, set_outcome, trail};
use crate::tuple::{
    fits, leaf_path, levels, shape_of, tuple_create_outcome, tuple_get_outcome, tuple_pop_outcome, tuple_push_outcome,
    tuple_set_outcome, MerkleTuple, TupleView,
};
use crate::value::{
    blank_leaf, bytes_eq, empty_node, Construct, Dangling, Owned, RootStatus, Value, ValueView,
};
use vstd::prelude::*;

verus! {

/// `MerkleVec` with owned root.
pub type OwnedMerkleVec<C> = MerkleVec<Owned, C>;

/// `MerkleVec` with dangling root.
pub type DanglingMerkleVec<C> = MerkleVec<Dangling, C>;

/// Binary merkle vector.
pub struct MerkleVec<R: RootStatus, C: Construct> {
    raw: Raw<R, C>,
    tuple: MerkleTuple<Dangling, C>,
}

/// What a vector is in contracts.
pub struct VecView {
    /// The root of the vector: the node above the root of the leaves and the
    /// leaf that carries their number.
    pub root: ValueView,
    /// The tuple of the leaves.
    pub items: TupleView,
}

/// The store and the root of the vector after the root of the leaves has been
/// written to the left of the root, and their number to the right.
pub open spec fn vec_synced<C: Construct>(
    store: Store,
    root: ValueView,
    items: TupleView,
    owned: bool,
) -> Result<(Store, ValueView), Error> {
    match set_outcome::<C>(store, root, path_of(2), items.root, owned) {
        Err(error) => Err(error),
        Ok((half, left)) => set_outcome::<C>(
            half,
            left,
            path_of(3),
            number_leaf::<C>(items.len),
            owned,
        ),
    }
}

/// The store and the vector after the tuple has changed to `changed`.
pub open spec fn vec_with<C: Construct>(
    vector: VecView,
    changed: Result<(Store, TupleView), Error>,
    owned: bool,
) -> Result<(Store, VecView), Error> {
    match changed {
        Err(error) => Err(error),
        Ok((store, items)) => match vec_synced::<C>(store, vector.root, items, owned) {
            Err(error) => Err(error),
            Ok((after, root)) => Ok((after, VecView { root, items })),
        },
    }
}

/// The store and the vector after `set(i, bytes)`.
pub open spec fn vec_set_outcome<C: Construct>(
    store: Store,
    vector: VecView,
    i: nat,
    bytes: Seq<u8>,
    owned: bool,
) -> Result<(Store, VecView), Error> {
    vec_with::<C>(vector, tuple_set_outcome::<C>(store, vector.items, i, bytes, false), owned)
}

/// The store and the vector after `push(bytes)`.
pub open spec fn vec_push_outcome<C: Construct>(
    store: Store,
    vector: VecView,
    bytes: Seq<u8>,
    owned: bool,
) -> Result<(Store, VecView), Error> {
    vec_with::<C>(vector, tuple_push_outcome::<C>(store, vector.items, bytes, false), owned)
}

/// The store, the vector and the value after `pop()`.
pub open spec fn vec_pop_outcome<C: Construct>(store: Store, vector: VecView, owned: bool) -> Result<
    (Store, VecView, Option<Seq<u8>>),
    Error,
> {
    match tuple_pop_outcome::<C>(store, vector.items, false) {
        Err(error) => Err(error),
        Ok((popped, items, value)) => match vec_synced::<C>(popped, vector.root, items, owned) {
            Err(error) => Err(error),
            Ok((after, root)) => Ok((after, VecView { root, items }, value)),
        },
    }
}

/// The store and the vector after `create()`: an empty tuple is made, the root
/// of the vector is built over it, and the tuple gives up its own reference.
pub open spec fn vec_create_outcome<C: Construct>(store: Store) -> Result<(Store, VecView), Error> {
    match tuple_create_outcome::<C>(store, 0, true) {
        Err(error) => Err(error),
        Ok((made, items)) => match vec_synced::<C>(made, blank_leaf::<C>(), items, true) {
            Err(error) => Err(error),
            Ok((built, root)) => match drop_outcome(built, items.root, true) {
                Err(error) => Err(error),
                Ok(after) => Ok((after, VecView { root, items })),
            },
        },
    }
}

/// What `deconstruct` returns: the root of the vector, once the node below it
/// has been read.
pub open spec fn vec_deconstruct_outcome(store: Store, vector: VecView) -> Result<ValueView, Error> {
    match lookup(store, vector.root, path_of(2)) {
        Err(error) => Err(error),
        Ok(_) => match lookup(store, vector.root, path_of(3)) {
            Err(error) => Err(error),
            Ok(_) => Ok(vector.root),
        },
    }
}

/// The number that a leaf carries, where it is the leaf of a number that fits a
/// machine word.
pub open spec fn carried_length<C: Construct>(leaf: ValueView) -> Option<nat> {
    match leaf {
        ValueView::End(bytes) => if bytes.len() >= 8 && le_value(bytes.take(8)) <= usize::MAX
            && leaf == number_leaf::<C>(le_value(bytes.take(8))) {
            Some(le_value(bytes.take(8)))
        } else {
            None
        },
        ValueView::Intermediate(_) => None,
    }
}

/// The store and the vector after `reconstruct(root)`: the root of the leaves
/// is read to the left of the root and their number to the right, and the
/// empty trees of their depth are pinned.
pub open spec fn vec_reconstruct_outcome<C: Construct>(store: Store, root: ValueView) -> Result<
    (Store, VecView),
    Error,
> {
    match lookup(store, root, path_of(2)) {
        Err(error) => Err(error),
        Ok(None) => Err(Error::CorruptedDatabase),
        Ok(Some(items_root)) => match lookup(store, root, path_of(3)) {
            Err(error) => Err(error),
            Ok(None) => Err(Error::CorruptedDatabase),
            Ok(Some(leaf)) => match carried_length::<C>(leaf) {
                None => Err(Error::CorruptedDatabase),
                Some(len) => if !fits(len) {
                    Err(Error::InvalidIndex)
                } else {
                    match with_empties::<C>(store, levels(len)) {
                        Err(error) => Err(error),
                        Ok(after) => Ok(
                            (
                                after,
                                VecView {
                                    root,
                                    items: TupleView {
                                        root: items_root,
                                        empty: empty_node::<C>(levels(len)),
                                        len,
                                    },
                                },
                            ),
                        ),
                    }
                },
            },
        },
    }
}

impl<R: RootStatus, C: Construct> View for MerkleVec<R, C> {
    type V = VecView;

    closed spec fn view(&self) -> VecView {
        VecView { root: self.raw@, items: self.tuple@ }
    }
}

impl<R: RootStatus, C: Construct> MerkleVec<R, C> {
    /// Writes the root of the leaves and their number below the root.
    fn update_metadata<DB: WriteBackend>(&mut self, db: &mut DB) -> (r: Result<(), Error>)
        requires
            old(db).inv(),
        ensures
            final(db).inv(),
            final(db).faultless() == old(db).faultless(),
            final(self)@.items == old(self)@.items,
            agrees(
                old(db).faultless(),
                r,
                (final(db).store(), final(self)@.root),
                vec_synced::<C>(old(db).store(), old(self)@.root, old(self)@.items, R::owned()),
            ),
    {
        self.raw.set(db, Index::root().left(), self.tuple.root())?;
        let len = self.tuple.len();
        self.raw.set(db, Index::root().right(), Value::End(number_end::<C>(len as u128)))
    }

    /// Get value at index.
    pub fn get<DB: ReadBackend>(&self, db: &mut DB, index: usize) -> (r: Result<Vec<u8>, Error>)
        requires
            old(db).inv(),
        ensures
            final(db).inv(),
            final(db).store() == old(db).store(),
            final(db).faultless() == old(db).faultless(),
            agrees(
                old(db).faultless(),
                r,
                r->Ok_0@,
                tuple_get_outcome(old(db).store(), self@.items, index as nat),
            ),
            forall|key: Seq<u8>| final(db).recording(key) == old(db).recording(key),
            record_grown(old(db).witnessed(), final(db).witnessed(), old(db).store()),
            r is Ok && (forall|key: Seq<u8>| old(db).recording(key)) ==> on_record(
                final(db).witnessed(),
                old(db).store(),
                trail(old(db).store(), self@.items.root, leaf_path(self@.items.len, index as nat)),
            ),
    {
        self.tuple.get(db, index)
    }

    /// Set value at index.
    pub fn set<DB: WriteBackend>(&mut self, db: &mut DB, index: usize, value: Vec<u8>) -> (r: Result<
        (),
        Error,
    >)
        requires
            old(db).inv(),
        ensures
            final(db).inv(),
            final(db).faultless() == old(db).faultless(),
            agrees(
                old(db).faultless(),
                r,
                (final(db).store(), final(self)@),
                vec_set_outcome::<C>(old(db).store(), old(self)@, index as nat, value@, R::owned()),
            ),
    {
        self.tuple.set(db, index, value)?;
        self.update_metadata(db)
    }

    /// Root of the current merkle vector.
    pub fn root(&self) -> (r: Value)
        ensures
            r@ == self@.root,
    {
        self.raw.root()
    }

    /// Push a new value to the vector.
    pub fn push<DB: WriteBackend + EmptyBackend<C>>(&mut self, db: &mut DB, value: Vec<u8>) -> (r:
        Result<(), Error>)
        requires
            old(db).inv(),
        ensures
            final(db).inv(),
            final(db).faultless() == old(db).faultless(),
            agrees(
                old(db).faultless(),
                r,
                (final(db).store(), final(self)@),
                vec_push_outcome::<C>(old(db).store(), old(self)@, value@, R::owned()),
            ),
    {
        self.tuple.push(db, value)?;
        self.update_metadata(db)
    }

    /// Pop a value from the vector.
    pub fn pop<DB: WriteBackend + EmptyBackend<C>>(&mut self, db: &mut DB) -> (r: Result<
        Option<Vec<u8>>,
        Error,
    >)
        requires
            old(db).inv(),
        ensures
            final(db).inv(),
            final(db).faultless() == old(db).faultless(),
            agrees(
                old(db).faultless(),
                r,
                (
                    final(db).store(),
                    final(self)@,
                    match r->Ok_0 {
                        Some(bytes) => Some(bytes@),
                        None => None,
                    },
                ),
                vec_pop_outcome::<C>(old(db).store(), old(self)@, R::owned()),
            ),
    {
        let ret = self.tuple.pop(db)?;
        self.update_metadata(db)?;
        Ok(ret)
    }

    /// Length of the vector.
    pub fn len(&self) -> (r: usize)
        ensures
            r == self@.items.len,
    {
        self.tuple.len()
    }

    /// Drop the current vector.
    pub fn drop<DB: WriteBackend>(self, db: &mut DB) -> (r: Result<(), Error>)
        requires
            old(db).inv(),
        ensures
            final(db).inv(),
            final(db).faultless() == old(db).faultless(),
            agrees(
                old(db).faultless(),
                r,
                final(db).store(),
                drop_outcome(old(db).store(), self@.root, R::owned()),
            ),
    {
        let MerkleVec { raw, tuple } = self;
        raw.drop(db)?;
        tuple.drop(db)
    }

    /// Gives up the vector and returns its root, after reading the node below
    /// the root, so that a backend that keeps a record has it on record.
    pub fn deconstruct<DB: ReadBackend>(self, db: &mut DB) -> (r: Result<Value, Error>)
        requires
            old(db).inv(),
        ensures
            final(db).inv(),
            final(db).store() == old(db).store(),
            final(db).faultless() == old(db).faultless(),
            agrees(
                old(db).faultless(),
                r,
                r->Ok_0@,
                vec_deconstruct_outcome(old(db).store(), self@),
            ),
            forall|key: Seq<u8>| final(db).recording(key) == old(db).recording(key),
            record_grown(old(db).witnessed(), final(db).witnessed(), old(db).store()),
            r is Ok && (forall|key: Seq<u8>| old(db).recording(key)) ==> on_record(
                final(db).witnessed(),
                old(db).store(),
                trail(old(db).store(), self@.root, path_of(2)),
            ),
    {
        let ghost start = db.witnessed();
        match self.raw.get(db, Index::root().left()) {
            Ok(_) => {},
            Err(error) => {
                return Err(error);
            },
        }
        let ghost middle = db.witnessed();
        match self.raw.get(db, Index::root().right()) {
            Ok(_) => {},
            Err(error) => {
                proof {
                    lemma_record_grown_twice(start, middle, db.witnessed(), db.store());
                }
                return Err(error);
            },
        }
        proof {
            lemma_record_grown_twice(start, middle, db.witnessed(), db.store());
            if forall|key: Seq<u8>| old(db).recording(key) {
                crate::laws::lemma_on_record_kept(
                    middle,
                    db.witnessed(),
                    db.store(),
                    trail(db.store(), self@.root, path_of(2)),
                );
            }
        }
        Ok(self.raw.root())
    }

    /// The vector with the given root: the root of the leaves and their number
    /// are read from below the root. No reference is taken on the root.
    pub fn reconstruct<DB: WriteBackend + EmptyBackend<C>>(root: Value, db: &mut DB) -> (r: Result<
        Self,
        Error,
    >)
        requires
            old(db).inv(),
        ensures
            final(db).inv(),
            final(db).faultless() == old(db).faultless(),
            agrees(
                old(db).faultless(),
                r,
                (final(db).store(), r->Ok_0@),
                vec_reconstruct_outcome::<C>(old(db).store(), root@),
            ),
    {
        let raw = Raw::<R, C>::from_leaked(root);
        let items_root = match raw.get(db, Index::root().left()) {
            Ok(Some(items_root)) => items_root,
            Ok(None) => {
                return Err(Error::CorruptedDatabase);
            },
            Err(error) => {
                return Err(error);
            },
        };
        let leaf = match raw.get(db, Index::root().right()) {
            Ok(Some(leaf)) => leaf,
            Ok(None) => {
                return Err(Error::CorruptedDatabase);
            },
            Err(error) => {
                return Err(error);
            },
        };
        let bytes = match leaf {
            Value::End(bytes) => bytes,
            Value::Intermediate(_) => {
                return Err(Error::CorruptedDatabase);
            },
        };
        if bytes.len() < 8 {
            return Err(Error::CorruptedDatabase);
        }
        let number: u128 = decode_le(&bytes, 8);
        if number > usize::MAX as u128 {
            return Err(Error::CorruptedDatabase);
        }
        let again = number_end::<C>(number);
        if !bytes_eq(&again, &bytes) {
            return Err(Error::CorruptedDatabase);
        }
        let len: usize = number as usize;
        let (_, depth) = match shape_of(len) {
            Some(shape) => shape,
            None => {
                return Err(Error::InvalidIndex);
            },
        };
        let empty = db.empty_at(depth)?;
        Ok(MerkleVec { raw, tuple: MerkleTuple::from_leaked(items_root, empty, len) })
    }

    /// Leak the current vector: the root of the vector, the root of the leaves,
    /// the root of the empty tree of their depth, and their number.
    pub fn leak(self) -> (r: (Value, Value, Value, usize))
        ensures
            r.0@ == self@.root,
            r.1@ == self@.items.root,
            r.2@ == self@.items.empty,
            r.3 == self@.items.len,
    {
        let MerkleVec { raw, tuple } = self;
        let (tuple_root, empty_root, len) = tuple.leak();
        (raw.metadata(), tuple_root, empty_root, len)
    }

    /// Initialize from a previously leaked one.
    pub fn from_leaked(raw_root: Value, tuple_root: Value, empty_root: Value, len: usize) -> (r: Self)
        ensures
            r@ == (VecView {
                root: raw_root@,
                items: TupleView { root: tuple_root@, empty: empty_root@, len: len as nat },
            }),
    {
        MerkleVec {
            raw: Raw::from_leaked(raw_root),
            tuple: MerkleTuple::from_leaked(tuple_root, empty_root, len),
        }
    }
}

/// A record that has grown twice has grown.
pub proof fn lemma_record_grown_twice(
    first: Map<Seq<u8>, (ValueView, ValueView)>,
    second: Map<Seq<u8>, (ValueView, ValueView)>,
    third: Map<Seq<u8>, (ValueView, ValueView)>,
    store: Store,
)
    requires
        record_grown(first, second, store),
        record_grown(second, third, store),
    ensures
        record_grown(first, third, store),
{
    assert forall|key: Seq<u8>| #[trigger] third.contains_key(key) implies (first.contains_key(key)
        && third[key] == first[key]) || (store.contains_key(key) && third[key]
        == crate::store::pair_at(store, key)) by {
        if second.contains_key(key) && third[key] == second[key] {
            assert(second.contains_key(key));
        }
    }
}

impl<C: Construct> MerkleVec<Owned, C> {
    /// Create a new vector.
    pub fn create<DB: WriteBackend + EmptyBackend<C>>(db: &mut DB) -> (r: Result<Self, Error>)
        requires
            old(db).inv(),
        ensures
            final(db).inv(),
            final(db).faultless() == old(db).faultless(),
            agrees(
                old(db).faultless(),
                r,
                (final(db).store(), r->Ok_0@),
                vec_create_outcome::<C>(old(db).store()),
            ),
    {
        let tuple = MerkleTuple::<Owned, C>::create(db, 0)?;
        let mut raw = Raw::<Owned, C>::default();
        raw.set(db, Index::root().left(), tuple.root())?;
        raw.set(db, Index::root().right(), Value::End(number_end::<C>(tuple.len() as u128)))?;
        let tuple_root = tuple.root();
        let empty_root = tuple.empty_root();
        let tuple_len = tuple.len();

        tuple.drop(db)?;
        let dangling_tuple = MerkleTuple::from_leaked(tuple_root, empty_root, tuple_len);

        Ok(MerkleVec { raw, tuple: dangling_tuple })
    }
}

} // verus!
