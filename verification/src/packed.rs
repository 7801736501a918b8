//! Packed byte strings: bytes crammed into leaves of 32 bytes, under a root
//! that commits to the leaves and to the number of bytes.

use crate::backend::{EmptyBackend, ReadBackend, WriteBackend};
use crate::error::Error;
use crate::index::{path_of, Index};
use crate::raw::Raw;
use crate::scalar::{decode_le, number_end, number_leaf};
use crate::serialize::{
    fields_of, fields_outcome, vector_tree, vector_tree_outcome, views_of, END_WIDTH,
};
use crate::store::{agrees, inserted, Store};
use crate::tree::lookup;
use crate::value::{bytes_eq, Construct, Dangling, Value, ValueView};
use crate::vec::carried_length;
use vstd::prelude::*;

verus! {

/// The number of leaves that `len` bytes fill.
pub open spec fn chunk_count(len: nat) -> nat {
    (len + 31) / 32
}

/// The bytes of leaf `i` of the packing of `bytes`: the 32 bytes from `32 i`
/// on, with zeros behind the last byte.
pub open spec fn chunk(bytes: Seq<u8>, i: int) -> Seq<u8> {
    Seq::new(
        32,
        |j: int|
            if 32 * i + j < bytes.len() {
                bytes[32 * i + j]
            } else {
                0u8
            },
    )
}

/// The leaves that `bytes` are packed into.
pub open spec fn packed(bytes: Seq<u8>) -> Seq<ValueView> {
    Seq::new(chunk_count(bytes.len()), |i: int| ValueView::End(chunk(bytes, i)))
}

/// Whether `values` are leaves of 32 bytes each.
pub open spec fn all_chunks(values: Seq<ValueView>) -> bool {
    forall|i: int|
        0 <= i < values.len() ==> (#[trigger] values[i]) is End && values[i]->End_0.len() == 32
}

/// The `len` bytes that are packed into `values`; values that are not the
/// leaves of `len` bytes are corrupted.
pub open spec fn unpacked(values: Seq<ValueView>, len: nat) -> Result<Seq<u8>, Error> {
    if values.len() == chunk_count(len) && all_chunks(values) {
        Ok(Seq::new(len, |k: int| values[k / 32]->End_0[k % 32]))
    } else {
        Err(Error::CorruptedDatabase)
    }
}

/// Bytes that are packed and unpacked again are the same bytes.
pub proof fn law_pack_round_trip(bytes: Seq<u8>)
    ensures
        unpacked(packed(bytes), bytes.len()) == Ok::<Seq<u8>, Error>(bytes),
{
    let values = packed(bytes);
    assert(all_chunks(values));
    let back = Seq::new(bytes.len(), |k: int| values[k / 32]->End_0[k % 32]);
    assert forall|k: int| 0 <= k < bytes.len() implies back[k] == bytes[k] by {
        assert(0 <= k / 32 < chunk_count(bytes.len()));
        assert(32 * (k / 32) + k % 32 == k);
        assert(values[k / 32] == ValueView::End(chunk(bytes, k / 32)));
    }
    assert(back =~= bytes);
}

/// Packs bytes into leaves of 32 bytes.
pub fn pack(bytes: &Vec<u8>) -> (r: Vec<Value>)
    ensures
        views_of(r@) == packed(bytes@),
{
    let len = bytes.len();
    let count: usize = if len == 0 {
        0
    } else {
        (len - 1) / 32 + 1
    };
    let mut values: Vec<Value> = Vec::new();
    let mut i: usize = 0;
    while i < count
        invariant
            i <= count,
            len == bytes@.len(),
            count == chunk_count(len as nat),
            values@.len() == i,
            forall|k: int|
                0 <= k < i ==> (#[trigger] values@[k])@ == ValueView::End(chunk(bytes@, k)),
        decreases count - i,
    {
        let offset: usize = 32 * i;
        let mut leaf: Vec<u8> = Vec::new();
        let mut j: usize = 0;
        while j < END_WIDTH
            invariant
                j <= 32,
                len == bytes@.len(),
                offset == 32 * i,
                offset < len,
                leaf@.len() == j,
                forall|k: int| 0 <= k < j ==> #[trigger] leaf@[k] == chunk(bytes@, i as int)[k],
            decreases 32 - j,
        {
            let byte: u8 = if j < len - offset {
                bytes[offset + j]
            } else {
                0
            };
            leaf.push(byte);
            j = j + 1;
        }
        proof {
            assert(leaf@ =~= chunk(bytes@, i as int));
        }
        values.push(Value::End(leaf));
        i = i + 1;
    }
    proof {
        assert(views_of(values@) =~= packed(bytes@));
    }
    values
}

/// Unpacks `len` bytes from leaves of 32 bytes.
pub fn unpack(values: &Vec<Value>, len: usize) -> (r: Result<Vec<u8>, Error>)
    ensures
        match unpacked(views_of(values@), len as nat) {
            Ok(bytes) => r is Ok && r->Ok_0@ == bytes,
            Err(error) => r == Err::<Vec<u8>, Error>(error),
        },
{
    let count: usize = if len == 0 {
        0
    } else {
        (len - 1) / 32 + 1
    };
    if values.len() != count {
        return Err(Error::CorruptedDatabase);
    }
    let mut i: usize = 0;
    while i < values.len()
        invariant
            i <= values@.len(),
            forall|k: int|
                0 <= k < i ==> (#[trigger] views_of(values@)[k]) is End && views_of(
                    values@,
                )[k]->End_0.len() == 32,
        decreases values@.len() - i,
    {
        let fine = match &values[i] {
            Value::End(leaf) => leaf.len() == 32,
            Value::Intermediate(_) => false,
        };
        if !fine {
            proof {
                let view = views_of(values@)[i as int];
                assert(!(view is End && view->End_0.len() == 32));
            }
            return Err(Error::CorruptedDatabase);
        }
        i = i + 1;
    }
    let mut bytes: Vec<u8> = Vec::new();
    let mut k: usize = 0;
    while k < len
        invariant
            k <= len,
            values@.len() == chunk_count(len as nat),
            all_chunks(views_of(values@)),
            bytes@.len() == k,
            forall|m: int|
                0 <= m < k ==> #[trigger] bytes@[m] == views_of(values@)[m / 32]->End_0[m % 32],
        decreases len - k,
    {
        assert(0 <= (k / 32) < values@.len());
        let ghost view = views_of(values@)[(k / 32) as int];
        assert(view is End && view->End_0.len() == 32);
        let byte: u8 = match &values[k / 32] {
            Value::End(leaf) => leaf[k % 32],
            Value::Intermediate(_) => 0,
        };
        bytes.push(byte);
        k = k + 1;
    }
    proof {
        assert(bytes@ =~= unpacked(views_of(values@), len as nat)->Ok_0);
    }
    Ok(bytes)
}

/// The store and the root after the number `len` has been mixed into `root`:
/// the node above `root` and the leaf of the number.
pub open spec fn length_mixed_outcome<C: Construct>(store: Store, root: ValueView, len: nat) -> Result<
    (Store, ValueView),
    Error,
> {
    let leaf = number_leaf::<C>(len);
    let key = C::digest(root, leaf);
    match inserted(store, key, root, leaf) {
        Err(error) => Err(error),
        Ok(after) => Ok((after, ValueView::Intermediate(key))),
    }
}

/// Mixes a length into a root.
pub fn mix_in_length<C: Construct, DB: WriteBackend>(root: Value, len: usize, db: &mut DB) -> (r:
    Result<Value, Error>)
    requires
        old(db).inv(),
    ensures
        final(db).inv(),
        final(db).faultless() == old(db).faultless(),
        agrees(
            old(db).faultless(),
            r,
            (final(db).store(), r->Ok_0@),
            length_mixed_outcome::<C>(old(db).store(), root@, len as nat),
        ),
{
    let leaf = Value::End(number_end::<C>(len as u128));
    let key = C::intermediate_of(&root, &leaf);
    match db.insert(key.clone(), (root, leaf)) {
        Ok(()) => Ok(Value::Intermediate(key)),
        Err(error) => Err(error),
    }
}

/// The root and the number that were mixed into `root`.
pub open spec fn length_split_outcome<C: Construct>(store: Store, root: ValueView) -> Result<
    (ValueView, nat),
    Error,
> {
    match lookup(store, root, path_of(2)) {
        Err(error) => Err(error),
        Ok(None) => Err(Error::CorruptedDatabase),
        Ok(Some(inner)) => match lookup(store, root, path_of(3)) {
            Err(error) => Err(error),
            Ok(None) => Err(Error::CorruptedDatabase),
            Ok(Some(leaf)) => match carried_length::<C>(leaf) {
                None => Err(Error::CorruptedDatabase),
                Some(len) => Ok((inner, len)),
            },
        },
    }
}

/// Splits a root into the root and the length that were mixed into it.
pub fn split_length<C: Construct, DB: ReadBackend>(root: &Value, db: &mut DB) -> (r: Result<
    (Value, usize),
    Error,
>)
    requires
        old(db).inv(),
    ensures
        final(db).inv(),
        final(db).store() == old(db).store(),
        final(db).faultless() == old(db).faultless(),
        agrees(
            old(db).faultless(),
            r,
            (r->Ok_0.0@, r->Ok_0.1 as nat),
            length_split_outcome::<C>(old(db).store(), root@),
        ),
{
    let raw = Raw::<Dangling, C>::from_leaked(root.clone());
    let inner = match raw.get(db, Index::root().left()) {
        Ok(Some(inner)) => inner,
        Ok(None) => {
            return Err(Error::CorruptedDatabase);
        },
        Err(error) => {
            return Err(error);
        },
    };
    let leaf = match raw.get(db, Index::root().right()) {
        Ok(Some(leaf)) => leaf,
        Ok(None) => {
            return Err(Error::CorruptedDatabase);
        },
        Err(error) => {
            return Err(error);
        },
    };
    let bytes = match leaf {
        Value::End(bytes) => bytes,
        Value::Intermediate(_) => {
            return Err(Error::CorruptedDatabase);
        },
    };
    if bytes.len() < 8 {
        return Err(Error::CorruptedDatabase);
    }
    let number: u128 = decode_le(&bytes, 8);
    if number > usize::MAX as u128 {
        return Err(Error::CorruptedDatabase);
    }
    let again = number_end::<C>(number);
    if !bytes_eq(&again, &bytes) {
        return Err(Error::CorruptedDatabase);
    }
    Ok((inner, number as usize))
}

/// The store and the root of the compact tree of `bytes`: the tree over the
/// leaves that the bytes are packed into, with the number of bytes mixed in.
pub open spec fn compact_tree_outcome<C: Construct>(store: Store, bytes: Seq<u8>) -> Result<
    (Store, ValueView),
    Error,
> {
    match vector_tree_outcome::<C>(store, packed(bytes)) {
        Err(error) => Err(error),
        Ok((built, inner)) => length_mixed_outcome::<C>(built, inner, bytes.len()),
    }
}

/// Writes a byte string in compact form, and returns the root.
pub fn compact_into_tree<C: Construct, DB: WriteBackend + EmptyBackend<C>>(
    bytes: &Vec<u8>,
    db: &mut DB,
) -> (r: Result<Value, Error>)
    requires
        old(db).inv(),
    ensures
        final(db).inv(),
        final(db).faultless() == old(db).faultless(),
        agrees(
            old(db).faultless(),
            r,
            (final(db).store(), r->Ok_0@),
            compact_tree_outcome::<C>(old(db).store(), bytes@),
        ),
{
    let values = pack(bytes);
    let inner = vector_tree::<C, DB>(&values, db)?;
    mix_in_length::<C, DB>(inner, bytes.len(), db)
}

/// The byte string that the compact tree with the root `root` stands for.
pub open spec fn compact_bytes_outcome<C: Construct>(store: Store, root: ValueView) -> Result<
    Seq<u8>,
    Error,
> {
    match length_split_outcome::<C>(store, root) {
        Err(error) => Err(error),
        Ok((inner, len)) => match fields_outcome::<C>(
            store,
            inner,
            chunk_count(len),
            chunk_count(len),
        ) {
            Err(error) => Err(error),
            Ok(values) => unpacked(values, len),
        },
    }
}

/// Reads a byte string from its compact form.
pub fn compact_from_tree<C: Construct, DB: ReadBackend>(root: &Value, db: &mut DB) -> (r: Result<
    Vec<u8>,
    Error,
>)
    requires
        old(db).inv(),
    ensures
        final(db).inv(),
        final(db).store() == old(db).store(),
        final(db).faultless() == old(db).faultless(),
        agrees(
            old(db).faultless(),
            r,
            r->Ok_0@,
            compact_bytes_outcome::<C>(old(db).store(), root@),
        ),
{
    let (inner, len) = split_length::<C, DB>(root, db)?;
    let count: usize = if len == 0 {
        0
    } else {
        (len - 1) / 32 + 1
    };
    let values = fields_of::<C, DB>(&inner, db, count)?;
    unpack(&values, len)
}

} // verus!
