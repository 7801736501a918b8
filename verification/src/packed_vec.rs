//! The packed vector: elements of a fixed width, crammed into blocks of 32
//! bytes, under a root that commits to the blocks and to the number of
//! elements.

use crate::backend::{EmptyBackend, ReadBackend, WriteBackend};
use crate::error::Error;
use crate::index::{path_of, Index};
use crate::raw::Raw;
use crate::scalar::{number_end, number_leaf};
use crate::store::{agrees, Store};
use crate::tree::{drop_outcome, set_outcome};
use crate::tuple::{
    tuple_create_outcome, tuple_get_outcome, tuple_pop_outcome, tuple_push_outcome,
    tuple_set_outcome, MerkleTuple, TupleView,
};
use crate::value::{blank_leaf, Construct, Dangling, Owned, RootStatus, Value, ValueView};
use vstd::prelude::*;

verus! {

/// `PackedVec` with owned root.
pub type OwnedPackedVec<C> = PackedVec<Owned, C>;

/// `PackedVec` with dangling root.
pub type DanglingPackedVec<C> = PackedVec<Dangling, C>;

/// Binary merkle vector of packed elements.
pub struct PackedVec<R: RootStatus, C: Construct> {
    raw: Raw<R, C>,
    tuple: MerkleTuple<Dangling, C>,
    width: usize,
    len: usize,
}

/// What a packed vector is in contracts.
pub struct PackedView {
    /// The root of the vector: the node above the root of the blocks and the
    /// leaf that carries the number of elements.
    pub root: ValueView,
    /// The tuple of the blocks.
    pub blocks: TupleView,
    /// The number of bytes of an element.
    pub width: nat,
    /// The number of elements.
    pub len: nat,
}

/// Whether elements of `width` bytes fill a block without a rest.
pub open spec fn is_width(width: nat) -> bool {
    width == 1 || width == 2 || width == 4 || width == 8 || width == 16 || width == 32
}

/// The number of elements of `width` bytes in a block.
pub open spec fn per_block(width: nat) -> nat {
    32nat / width
}

/// The block that holds element `i`.
pub open spec fn block_of(i: nat, width: nat) -> nat {
    i / per_block(width)
}

/// Where element `i` begins in its block.
pub open spec fn offset_of(i: nat, width: nat) -> nat {
    (i % per_block(width)) * width
}

/// The `width` bytes of `block` from `offset` on.
pub open spec fn cut(block: Seq<u8>, offset: nat, width: nat) -> Seq<u8> {
    block.subrange(offset as int, (offset + width) as int)
}

/// The block with the bytes from `offset` on replaced by `value`.
pub open spec fn spliced(block: Seq<u8>, offset: nat, value: Seq<u8>) -> Seq<u8> {
    block.subrange(0, offset as int) + value + block.subrange(
        (offset + value.len()) as int,
        block.len() as int,
    )
}

/// So many zero bytes.
pub open spec fn zeros(count: nat) -> Seq<u8> {
    Seq::new(count, |i: int| 0u8)
}

/// What `get(i)` returns on a packed vector: the bytes of element `i`, cut
/// from the block that holds it.
pub open spec fn packed_get_outcome(store: Store, vector: PackedView, i: nat) -> Result<
    Seq<u8>,
    Error,
> {
    if !is_width(vector.width) || i >= vector.len {
        Err(Error::InvalidIndex)
    } else {
        match tuple_get_outcome(store, vector.blocks, block_of(i, vector.width)) {
            Err(error) => Err(error),
            Ok(block) => if block.len() == 32 {
                Ok(cut(block, offset_of(i, vector.width), vector.width))
            } else {
                Err(Error::CorruptedDatabase)
            },
        }
    }
}

/// The store and the root of the vector after the root of the blocks has been
/// written to the left of the root, and the number of elements to the right.
pub open spec fn packed_synced<C: Construct>(
    store: Store,
    root: ValueView,
    blocks: TupleView,
    len: nat,
    owned: bool,
) -> Result<(Store, ValueView), Error> {
    match set_outcome::<C>(store, root, path_of(2), blocks.root, owned) {
        Err(error) => Err(error),
        Ok((half, left)) => set_outcome::<C>(half, left, path_of(3), number_leaf::<C>(len), owned),
    }
}

/// The store and the vector after the blocks have changed to `changed` and
/// the number of elements to `len`.
pub open spec fn packed_with<C: Construct>(
    vector: PackedView,
    changed: Result<(Store, TupleView), Error>,
    len: nat,
    owned: bool,
) -> Result<(Store, PackedView), Error> {
    match changed {
        Err(error) => Err(error),
        Ok((store, blocks)) => match packed_synced::<C>(store, vector.root, blocks, len, owned) {
            Err(error) => Err(error),
            Ok((after, root)) => Ok(
                (after, PackedView { root, blocks, width: vector.width, len }),
            ),
        },
    }
}

/// The store and the blocks after element `i` has been overwritten with
/// `value` in the block that holds it.
pub open spec fn block_written<C: Construct>(
    store: Store,
    vector: PackedView,
    i: nat,
    value: Seq<u8>,
) -> Result<(Store, TupleView), Error> {
    match tuple_get_outcome(store, vector.blocks, block_of(i, vector.width)) {
        Err(error) => Err(error),
        Ok(block) => if block.len() == 32 {
            tuple_set_outcome::<C>(
                store,
                vector.blocks,
                block_of(i, vector.width),
                spliced(block, offset_of(i, vector.width), value),
                false,
            )
        } else {
            Err(Error::CorruptedDatabase)
        },
    }
}

/// The store and the vector after `set(i, value)`.
pub open spec fn packed_set_outcome<C: Construct>(
    store: Store,
    vector: PackedView,
    i: nat,
    value: Seq<u8>,
    owned: bool,
) -> Result<(Store, PackedView), Error> {
    if !is_width(vector.width) || i >= vector.len || value.len() != vector.width {
        Err(Error::InvalidIndex)
    } else {
        packed_with::<C>(vector, block_written::<C>(store, vector, i, value), vector.len, owned)
    }
}

/// The store and the vector after `push(value)`: the element opens a new block
/// where the last one is full, and else takes the next place in the last one.
pub open spec fn packed_push_outcome<C: Construct>(
    store: Store,
    vector: PackedView,
    value: Seq<u8>,
    owned: bool,
) -> Result<(Store, PackedView), Error> {
    if !is_width(vector.width) || value.len() != vector.width || vector.len >= usize::MAX {
        Err(Error::InvalidIndex)
    } else {
        let changed = if vector.len % per_block(vector.width) == 0 {
            tuple_push_outcome::<C>(
                store,
                vector.blocks,
                value + zeros((32 - vector.width) as nat),
                false,
            )
        } else {
            block_written::<C>(store, vector, vector.len, value)
        };
        packed_with::<C>(vector, changed, vector.len + 1, owned)
    }
}

/// The store, the vector and the element after `pop()`: the last element is
/// read; its block is given up where it was alone in it, and else its place is
/// filled with zeros.
pub open spec fn packed_pop_outcome<C: Construct>(store: Store, vector: PackedView, owned: bool) -> Result<
    (Store, PackedView, Option<Seq<u8>>),
    Error,
> {
    if vector.len == 0 {
        Ok((store, vector, None))
    } else {
        let last = (vector.len - 1) as nat;
        match packed_get_outcome(store, vector, last) {
            Err(error) => Err(error),
            Ok(value) => {
                let changed = if last % per_block(vector.width) == 0 {
                    match tuple_pop_outcome::<C>(store, vector.blocks, false) {
                        Err(error) => Err(error),
                        Ok((after, blocks, _)) => Ok((after, blocks)),
                    }
                } else {
                    block_written::<C>(store, vector, last, zeros(vector.width))
                };
                match packed_with::<C>(vector, changed, last, owned) {
                    Err(error) => Err(error),
                    Ok((after, shorter)) => Ok((after, shorter, Some(value))),
                }
            },
        }
    }
}

/// The store and the vector after `create(width)`: an empty tuple of blocks
/// is made, the root of the vector is built over it, and the tuple gives up
/// its own reference.
pub open spec fn packed_create_outcome<C: Construct>(store: Store, width: nat) -> Result<
    (Store, PackedView),
    Error,
> {
    if !is_width(width) {
        Err(Error::InvalidIndex)
    } else {
        match tuple_create_outcome::<C>(store, 0, true) {
            Err(error) => Err(error),
            Ok((made, blocks)) => match packed_synced::<C>(made, blank_leaf::<C>(), blocks, 0, true) {
                Err(error) => Err(error),
                Ok((built, root)) => match drop_outcome(built, blocks.root, true) {
                    Err(error) => Err(error),
                    Ok(after) => Ok((after, PackedView { root, blocks, width, len: 0 })),
                },
            },
        }
    }
}

/// Whether elements of `width` bytes fill a block without a rest.
pub fn width_fits(width: usize) -> (r: bool)
    ensures
        r == is_width(width as nat),
{
    width == 1 || width == 2 || width == 4 || width == 8 || width == 16 || width == 32
}

/// Cuts `width` bytes out of a block.
fn cut_out(block: &Vec<u8>, offset: usize, width: usize) -> (r: Vec<u8>)
    requires
        offset + width <= block@.len(),
    ensures
        r@ == cut(block@, offset as nat, width as nat),
{
    let size = block.len();
    let mut bytes: Vec<u8> = Vec::new();
    let mut i: usize = 0;
    while i < width
        invariant
            i <= width,
            size == block@.len(),
            offset + width <= size,
            bytes@.len() == i,
            forall|k: int| 0 <= k < i ==> #[trigger] bytes@[k] == block@[offset + k],
        decreases width - i,
    {
        bytes.push(block[offset + i]);
        i = i + 1;
    }
    proof {
        assert(bytes@ =~= cut(block@, offset as nat, width as nat));
    }
    bytes
}

/// Writes `value` into a block.
fn splice(block: &Vec<u8>, offset: usize, value: &Vec<u8>) -> (r: Vec<u8>)
    requires
        offset + value@.len() <= block@.len(),
    ensures
        r@ == spliced(block@, offset as nat, value@),
{
    let mut bytes: Vec<u8> = Vec::new();
    let mut i: usize = 0;
    while i < block.len()
        invariant
            i <= block@.len(),
            offset + value@.len() <= block@.len(),
            bytes@.len() == i,
            forall|k: int|
                0 <= k < i ==> #[trigger] bytes@[k] == (if offset <= k < offset + value@.len() {
                    value@[k - offset]
                } else {
                    block@[k]
                }),
        decreases block@.len() - i,
    {
        let byte: u8 = if offset <= i && i - offset < value.len() {
            value[i - offset]
        } else {
            block[i]
        };
        bytes.push(byte);
        i = i + 1;
    }
    proof {
        assert(bytes@ =~= spliced(block@, offset as nat, value@));
    }
    bytes
}

/// Makes so many zero bytes.
fn zero_bytes(count: usize) -> (r: Vec<u8>)
    ensures
        r@ == zeros(count as nat),
{
    let mut bytes: Vec<u8> = Vec::new();
    while bytes.len() < count
        invariant
            bytes@.len() <= count,
            forall|k: int| 0 <= k < bytes@.len() ==> bytes@[k] == 0u8,
        decreases count - bytes@.len(),
    {
        bytes.push(0);
    }
    proof {
        assert(bytes@ =~= zeros(count as nat));
    }
    bytes
}

impl<R: RootStatus, C: Construct> View for PackedVec<R, C> {
    type V = PackedView;

    closed spec fn view(&self) -> PackedView {
        PackedView {
            root: self.raw@,
            blocks: self.tuple@,
            width: self.width as nat,
            len: self.len as nat,
        }
    }
}

impl<R: RootStatus, C: Construct> PackedVec<R, C> {
    /// Writes the root of the blocks and the number of elements below the root.
    fn update_metadata<DB: WriteBackend>(&mut self, db: &mut DB, len: usize) -> (r: Result<
        (),
        Error,
    >)
        requires
            old(db).inv(),
        ensures
            final(db).inv(),
            final(db).faultless() == old(db).faultless(),
            final(self)@.blocks == old(self)@.blocks,
            final(self)@.width == old(self)@.width,
            r is Ok ==> final(self)@.len == len,
            agrees(
                old(db).faultless(),
                r,
                (final(db).store(), final(self)@.root),
                packed_synced::<C>(
                    old(db).store(),
                    old(self)@.root,
                    old(self)@.blocks,
                    len as nat,
                    R::owned(),
                ),
            ),
    {
        self.raw.set(db, Index::root().left(), self.tuple.root())?;
        self.raw.set(db, Index::root().right(), Value::End(number_end::<C>(len as u128)))?;
        self.len = len;
        Ok(())
    }

    /// Overwrites element `i` in the block that holds it.
    fn write_block<DB: WriteBackend>(&mut self, db: &mut DB, index: usize, value: &Vec<u8>) -> (r:
        Result<(), Error>)
        requires
            old(db).inv(),
            is_width(old(self)@.width),
            value@.len() == old(self)@.width,
        ensures
            final(db).inv(),
            final(db).faultless() == old(db).faultless(),
            final(self)@.root == old(self)@.root,
            final(self)@.width == old(self)@.width,
            final(self)@.len == old(self)@.len,
            agrees(
                old(db).faultless(),
                r,
                (final(db).store(), final(self)@.blocks),
                block_written::<C>(old(db).store(), old(self)@, index as nat, value@),
            ),
    {
        let per: usize = 32 / self.width;
        let block = self.tuple.get(db, index / per)?;
        if block.len() != 32 {
            return Err(Error::CorruptedDatabase);
        }
        let offset: usize = (index % per) * self.width;
        let changed = splice(&block, offset, value);
        self.tuple.set(db, index / per, changed)
    }

    /// Get the element at index.
    pub fn get<DB: ReadBackend>(&self, db: &mut DB, index: usize) -> (r: Result<Vec<u8>, Error>)
        requires
            old(db).inv(),
        ensures
            final(db).inv(),
            final(db).store() == old(db).store(),
            final(db).faultless() == old(db).faultless(),
            agrees(
                old(db).faultless(),
                r,
                r->Ok_0@,
                packed_get_outcome(old(db).store(), self@, index as nat),
            ),
    {
        if !width_fits(self.width) || index >= self.len {
            return Err(Error::InvalidIndex);
        }
        let per: usize = 32 / self.width;
        let block = self.tuple.get(db, index / per)?;
        if block.len() != 32 {
            return Err(Error::CorruptedDatabase);
        }
        let offset: usize = (index % per) * self.width;
        Ok(cut_out(&block, offset, self.width))
    }

    /// Set the element at index.
    pub fn set<DB: WriteBackend>(&mut self, db: &mut DB, index: usize, value: Vec<u8>) -> (r: Result<
        (),
        Error,
    >)
        requires
            old(db).inv(),
        ensures
            final(db).inv(),
            final(db).faultless() == old(db).faultless(),
            agrees(
                old(db).faultless(),
                r,
                (final(db).store(), final(self)@),
                packed_set_outcome::<C>(old(db).store(), old(self)@, index as nat, value@, R::owned()),
            ),
    {
        if !width_fits(self.width) || index >= self.len || value.len() != self.width {
            return Err(Error::InvalidIndex);
        }
        self.write_block(db, index, &value)?;
        let len = self.len;
        self.update_metadata(db, len)
    }

    /// Push a new element to the vector.
    pub fn push<DB: WriteBackend + EmptyBackend<C>>(&mut self, db: &mut DB, value: Vec<u8>) -> (r:
        Result<(), Error>)
        requires
            old(db).inv(),
        ensures
            final(db).inv(),
            final(db).faultless() == old(db).faultless(),
            agrees(
                old(db).faultless(),
                r,
                (final(db).store(), final(self)@),
                packed_push_outcome::<C>(old(db).store(), old(self)@, value@, R::owned()),
            ),
    {
        if !width_fits(self.width) || value.len() != self.width || self.len == usize::MAX {
            return Err(Error::InvalidIndex);
        }
        let len = self.len;
        let per: usize = 32 / self.width;
        if len % per == 0 {
            let mut block = value;
            let mut rest = zero_bytes(32 - self.width);
            let ghost head = block@;
            block.append(&mut rest);
            assert(block@ =~= head + zeros((32 - self.width) as nat));
            self.tuple.push(db, block)?;
        } else {
            self.write_block(db, len, &value)?;
        }
        self.update_metadata(db, len + 1)
    }

    /// Pop an element from the vector.
    pub fn pop<DB: WriteBackend + EmptyBackend<C>>(&mut self, db: &mut DB) -> (r: Result<
        Option<Vec<u8>>,
        Error,
    >)
        requires
            old(db).inv(),
        ensures
            final(db).inv(),
            final(db).faultless() == old(db).faultless(),
            agrees(
                old(db).faultless(),
                r,
                (
                    final(db).store(),
                    final(self)@,
                    match r->Ok_0 {
                        Some(bytes) => Some(bytes@),
                        None => None,
                    },
                ),
                packed_pop_outcome::<C>(old(db).store(), old(self)@, R::owned()),
            ),
    {
        if self.len == 0 {
            return Ok(None);
        }
        let last: usize = self.len - 1;
        let value = self.get(db, last)?;
        let per: usize = 32 / self.width;
        if last % per == 0 {
            match self.tuple.pop(db) {
                Ok(_) => {},
                Err(error) => {
                    return Err(error);
                },
            }
        } else {
            let blank = zero_bytes(self.width);
            self.write_block(db, last, &blank)?;
        }
        self.update_metadata(db, last)?;
        Ok(Some(value))
    }

    /// Root of the current packed vector.
    pub fn root(&self) -> (r: Value)
        ensures
            r@ == self@.root,
    {
        self.raw.root()
    }

    /// Number of elements of the vector.
    pub fn len(&self) -> (r: usize)
        ensures
            r == self@.len,
    {
        self.len
    }

    /// Number of bytes of an element.
    pub fn width(&self) -> (r: usize)
        ensures
            r == self@.width,
    {
        self.width
    }

    /// Drop the current vector.
    pub fn drop<DB: WriteBackend>(self, db: &mut DB) -> (r: Result<(), Error>)
        requires
            old(db).inv(),
        ensures
            final(db).inv(),
            final(db).faultless() == old(db).faultless(),
            agrees(
                old(db).faultless(),
                r,
                final(db).store(),
                drop_outcome(old(db).store(), self@.root, R::owned()),
            ),
    {
        let PackedVec { raw, tuple, width: _, len: _ } = self;
        raw.drop(db)?;
        tuple.drop(db)
    }
}

impl<C: Construct> PackedVec<Owned, C> {
    /// Create a new vector of elements of `width` bytes. The width is one of
    /// 1, 2, 4, 8, 16 and 32.
    pub fn create<DB: WriteBackend + EmptyBackend<C>>(db: &mut DB, width: usize) -> (r: Result<
        Self,
        Error,
    >)
        requires
            old(db).inv(),
        ensures
            final(db).inv(),
            final(db).faultless() == old(db).faultless(),
            agrees(
                old(db).faultless(),
                r,
                (final(db).store(), r->Ok_0@),
                packed_create_outcome::<C>(old(db).store(), width as nat),
            ),
    {
        if !width_fits(width) {
            return Err(Error::InvalidIndex);
        }
        let tuple = MerkleTuple::<Owned, C>::create(db, 0)?;
        let mut raw = Raw::<Owned, C>::default();
        raw.set(db, Index::root().left(), tuple.root())?;
        raw.set(db, Index::root().right(), Value::End(number_end::<C>(0)))?;
        let (tuple_root, empty_root, tuple_len) = (tuple.root(), tuple.empty_root(), tuple.len());
        tuple.drop(db)?;
        let blocks = MerkleTuple::from_leaked(tuple_root, empty_root, tuple_len);
        Ok(PackedVec { raw, tuple: blocks, width, len: 0 })
    }
}

} // verus!
