//! Serialization to the tree: scalars become leaves of 32 bytes, records
//! become the tree over the values of their fields.

use crate::backend::{EmptyBackend, ReadBackend, WriteBackend};
use crate::error::Error;
use crate::scalar::{decode_le, encode_le, le_bytes, le_value};
use crate::store::{agrees, inserted, with_empties, Store};
use crate::tuple::{
    fits, lemma_capacity_from_grows, lemma_capacity_is_power, levels, pow2, shape_of,
    tuple_value_outcome, MerkleTuple, TupleView,
};
use crate::value::{blank_leaf, empty_node, Construct, Dangling, Value, ValueView};
use vstd::prelude::*;

verus! {

/// The width of the leaves that carry scalars.
pub const END_WIDTH: usize = 32;

/// The leaf that carries the scalar `value`: its bytes, the lowest first,
/// followed by zeros up to the width of a leaf.
pub open spec fn scalar_leaf(value: nat) -> ValueView {
    ValueView::End(le_bytes(value, END_WIDTH as nat))
}

/// The scalar of `width` bytes that the leaf `root` carries; a value that is
/// no leaf, or a leaf of fewer bytes, is corrupted.
pub open spec fn scalar_of(root: ValueView, width: nat) -> Result<nat, Error> {
    match root {
        ValueView::End(bytes) => if bytes.len() >= width {
            Ok(le_value(bytes.take(width as int)))
        } else {
            Err(Error::CorruptedDatabase)
        },
        ValueView::Intermediate(_) => Err(Error::CorruptedDatabase),
    }
}

/// Makes the leaf of a scalar.
fn leaf_of(value: u128) -> (r: Value)
    ensures
        r@ == scalar_leaf(value as nat),
{
    Value::End(encode_le(value, END_WIDTH))
}

/// Reads the scalar of `width` bytes that a leaf carries.
fn scalar_from(root: &Value, width: usize) -> (r: Result<u128, Error>)
    requires
        width <= 16,
    ensures
        match scalar_of(root@, width as nat) {
            Ok(value) => r == Ok::<u128, Error>(value as u128) && value <= u128::MAX,
            Err(error) => r == Err::<u128, Error>(error),
        },
{
    match root {
        Value::End(bytes) => {
            if bytes.len() >= width {
                Ok(decode_le(bytes, width))
            } else {
                Err(Error::CorruptedDatabase)
            }
        },
        Value::Intermediate(_) => Err(Error::CorruptedDatabase),
    }
}

/// Values that can be written into a tree.
pub trait IntoTree {
    /// The root of the tree of this value, where the value is a scalar.
    spec fn leaf(&self) -> ValueView;

    /// The root of the tree of this value. The tree of a scalar is one leaf,
    /// and the backend is left as it is.
    fn into_tree<DB: WriteBackend>(&self, db: &mut DB) -> (r: Result<Value, Error>)
        requires
            old(db).inv(),
        ensures
            final(db).inv(),
            final(db).store() == old(db).store(),
            final(db).faultless() == old(db).faultless(),
            r is Ok,
            r->Ok_0@ == self.leaf(),
    ;
}

/// Values that can be read from a tree.
pub trait FromTree: Sized {
    /// The value that the tree with the root `root` stands for, or the error
    /// of reading it.
    spec fn decoded(root: ValueView) -> Result<Self, Error>;

    /// Reads a value from the tree with the root `root`. The tree of a scalar
    /// is one leaf, and the backend is not asked.
    fn from_tree<DB: ReadBackend>(root: &Value, db: &mut DB) -> (r: Result<Self, Error>)
        requires
            old(db).inv(),
        ensures
            final(db).inv(),
            final(db).store() == old(db).store(),
            final(db).faultless() == old(db).faultless(),
            r == Self::decoded(root@),
    ;
}

impl IntoTree for u8 {
    open spec fn leaf(&self) -> ValueView {
        scalar_leaf(*self as nat)
    }

    fn into_tree<DB: WriteBackend>(&self, db: &mut DB) -> (r: Result<Value, Error>) {
        Ok(leaf_of(*self as u128))
    }
}

impl FromTree for u8 {
    open spec fn decoded(root: ValueView) -> Result<u8, Error> {
        match scalar_of(root, 1) {
            Ok(value) => Ok(value as u8),
            Err(error) => Err(error),
        }
    }

    fn from_tree<DB: ReadBackend>(root: &Value, db: &mut DB) -> (r: Result<u8, Error>) {
        match scalar_from(root, 1) {
            Ok(value) => {
                proof {
                    crate::scalar::lemma_value_below(root@->End_0.take(1));
                }
                Ok(value as u8)
            },
            Err(error) => Err(error),
        }
    }
}

impl IntoTree for u16 {
    open spec fn leaf(&self) -> ValueView {
        scalar_leaf(*self as nat)
    }

    fn into_tree<DB: WriteBackend>(&self, db: &mut DB) -> (r: Result<Value, Error>) {
        Ok(leaf_of(*self as u128))
    }
}

impl FromTree for u16 {
    open spec fn decoded(root: ValueView) -> Result<u16, Error> {
        match scalar_of(root, 2) {
            Ok(value) => Ok(value as u16),
            Err(error) => Err(error),
        }
    }

    fn from_tree<DB: ReadBackend>(root: &Value, db: &mut DB) -> (r: Result<u16, Error>) {
        match scalar_from(root, 2) {
            Ok(value) => {
                proof {
                    crate::scalar::lemma_value_below(root@->End_0.take(2));
                    reveal_with_fuel(crate::scalar::pow256, 3);
                }
                Ok(value as u16)
            },
            Err(error) => Err(error),
        }
    }
}

impl IntoTree for u32 {
    open spec fn leaf(&self) -> ValueView {
        scalar_leaf(*self as nat)
    }

    fn into_tree<DB: WriteBackend>(&self, db: &mut DB) -> (r: Result<Value, Error>) {
        Ok(leaf_of(*self as u128))
    }
}

impl FromTree for u32 {
    open spec fn decoded(root: ValueView) -> Result<u32, Error> {
        match scalar_of(root, 4) {
            Ok(value) => Ok(value as u32),
            Err(error) => Err(error),
        }
    }

    fn from_tree<DB: ReadBackend>(root: &Value, db: &mut DB) -> (r: Result<u32, Error>) {
        match scalar_from(root, 4) {
            Ok(value) => {
                proof {
                    crate::scalar::lemma_value_below(root@->End_0.take(4));
                    reveal_with_fuel(crate::scalar::pow256, 5);
                }
                Ok(value as u32)
            },
            Err(error) => Err(error),
        }
    }
}

impl IntoTree for u64 {
    open spec fn leaf(&self) -> ValueView {
        scalar_leaf(*self as nat)
    }

    fn into_tree<DB: WriteBackend>(&self, db: &mut DB) -> (r: Result<Value, Error>) {
        Ok(leaf_of(*self as u128))
    }
}

impl FromTree for u64 {
    open spec fn decoded(root: ValueView) -> Result<u64, Error> {
        match scalar_of(root, 8) {
            Ok(value) => Ok(value as u64),
            Err(error) => Err(error),
        }
    }

    fn from_tree<DB: ReadBackend>(root: &Value, db: &mut DB) -> (r: Result<u64, Error>) {
        match scalar_from(root, 8) {
            Ok(value) => {
                proof {
                    crate::scalar::lemma_value_below(root@->End_0.take(8));
                    reveal_with_fuel(crate::scalar::pow256, 9);
                }
                Ok(value as u64)
            },
            Err(error) => Err(error),
        }
    }
}

impl IntoTree for u128 {
    open spec fn leaf(&self) -> ValueView {
        scalar_leaf(*self as nat)
    }

    fn into_tree<DB: WriteBackend>(&self, db: &mut DB) -> (r: Result<Value, Error>) {
        Ok(leaf_of(*self))
    }
}

impl FromTree for u128 {
    open spec fn decoded(root: ValueView) -> Result<u128, Error> {
        match scalar_of(root, 16) {
            Ok(value) => Ok(value as u128),
            Err(error) => Err(error),
        }
    }

    fn from_tree<DB: ReadBackend>(root: &Value, db: &mut DB) -> (r: Result<u128, Error>) {
        scalar_from(root, 16)
    }
}

impl IntoTree for bool {
    open spec fn leaf(&self) -> ValueView {
        scalar_leaf(if *self {
            1
        } else {
            0
        })
    }

    fn into_tree<DB: WriteBackend>(&self, db: &mut DB) -> (r: Result<Value, Error>) {
        match self {
            true => 1u8.into_tree(db),
            false => 0u8.into_tree(db),
        }
    }
}

impl FromTree for bool {
    open spec fn decoded(root: ValueView) -> Result<bool, Error> {
        match scalar_of(root, 1) {
            Ok(value) => Ok(value != 0),
            Err(error) => Err(error),
        }
    }

    fn from_tree<DB: ReadBackend>(root: &Value, db: &mut DB) -> (r: Result<bool, Error>) {
        match u8::from_tree(root, db) {
            Ok(value) => {
                proof {
                    crate::scalar::lemma_value_below(root@->End_0.take(1));
                    reveal_with_fuel(crate::scalar::pow256, 2);
                }
                Ok(value != 0)
            },
            Err(error) => Err(error),
        }
    }
}

/// A word of 256 bits, as four limbs of 64 bits, the lowest first.
#[derive(Clone, Copy, Debug, PartialEq, Eq)]
pub struct U256(pub [u64; 4]);

/// The number that four limbs of 64 bits spell, the lowest first.
pub open spec fn limbs_value(limbs: Seq<u64>) -> nat {
    (limbs[0] as nat) + 0x1_0000_0000_0000_0000 * ((limbs[1] as nat) + 0x1_0000_0000_0000_0000 * ((
    limbs[2] as nat) + 0x1_0000_0000_0000_0000 * (limbs[3] as nat)))
}

/// Calls `primitive_types::U256::to_little_endian`: the 32 bytes are those of
/// the number that the limbs spell, the lowest byte first.
#[verifier::external_body]
fn limbs_to_le(limbs: [u64; 4]) -> (r: Vec<u8>)
    ensures
        r@ == le_bytes(limbs_value(limbs@), 32),
{
    primitive_types::U256(limbs).to_little_endian().to_vec()
}

/// Calls `primitive_types::U256::from_little_endian`, which takes at most 32
/// bytes: the limbs spell the number that the bytes spell, the lowest byte
/// first.
#[verifier::external_body]
fn limbs_from_le(bytes: &Vec<u8>) -> (r: [u64; 4])
    requires
        bytes@.len() <= 32,
    ensures
        limbs_value(r@) == le_value(bytes@),
{
    primitive_types::U256::from_little_endian(bytes.as_slice()).0
}

impl U256 {
    /// The number that the word spells.
    pub open spec fn value(&self) -> nat {
        limbs_value(self.0@)
    }

    /// The leaf that carries the word.
    pub fn into_tree<DB: WriteBackend>(&self, db: &mut DB) -> (r: Result<Value, Error>)
        requires
            old(db).inv(),
        ensures
            final(db).inv(),
            final(db).store() == old(db).store(),
            final(db).faultless() == old(db).faultless(),
            r is Ok,
            r->Ok_0@ == scalar_leaf(self.value()),
    {
        Ok(Value::End(limbs_to_le(self.0)))
    }

    /// The word that the leaf `root` carries: the number that its first 32
    /// bytes spell. A value that is no leaf, or a leaf of fewer bytes, is
    /// corrupted.
    pub fn from_tree<DB: ReadBackend>(root: &Value, db: &mut DB) -> (r: Result<U256, Error>)
        requires
            old(db).inv(),
        ensures
            final(db).inv(),
            final(db).store() == old(db).store(),
            final(db).faultless() == old(db).faultless(),
            match scalar_of(root@, 32) {
                Ok(value) => r is Ok && r->Ok_0.value() == value,
                Err(error) => r is Err && r->Err_0 == error,
            },
    {
        match root {
            Value::End(bytes) => {
                if bytes.len() >= 32 {
                    let mut head: Vec<u8> = Vec::new();
                    let mut i: usize = 0;
                    while i < 32
                        invariant
                            i <= 32,
                            bytes@.len() >= 32,
                            head@ == bytes@.take(i as int),
                        decreases 32 - i,
                    {
                        head.push(bytes[i]);
                        proof {
                            assert(bytes@.take(i + 1) =~= bytes@.take(i as int).push(bytes@[i as int]));
                        }
                        i = i + 1;
                    }
                    Ok(U256(limbs_from_le(&head)))
                } else {
                    Err(Error::CorruptedDatabase)
                }
            },
            Value::Intermediate(_) => Err(Error::CorruptedDatabase),
        }
    }
}

/// The store and the nodes one level up: the values are paired from the left,
/// each pair is hashed and inserted, and a value that is left over at the end
/// is paired with the empty tree of the level.
pub open spec fn layer<C: Construct>(store: Store, values: Seq<ValueView>, level: nat) -> Result<
    (Store, Seq<ValueView>),
    Error,
>
    decreases values.len(),
{
    if values.len() == 0 {
        Ok((store, Seq::empty()))
    } else if values.len() == 1 {
        match with_empties::<C>(store, level) {
            Err(error) => Err(error),
            Ok(pinned) => {
                let empty = empty_node::<C>(level);
                let key = C::digest(values[0], empty);
                match inserted(pinned, key, values[0], empty) {
                    Err(error) => Err(error),
                    Ok(after) => Ok((after, seq![ValueView::Intermediate(key)])),
                }
            },
        }
    } else {
        let key = C::digest(values[0], values[1]);
        match inserted(store, key, values[0], values[1]) {
            Err(error) => Err(error),
            Ok(grown) => match layer::<C>(grown, values.skip(2), level) {
                Err(error) => Err(error),
                Ok((after, rest)) => Ok((after, seq![ValueView::Intermediate(key)] + rest)),
            },
        }
    }
}

/// The store and the nodes at the level `top`, built over the nodes `values`
/// of the level `level`.
pub open spec fn layers<C: Construct>(
    store: Store,
    values: Seq<ValueView>,
    level: nat,
    top: nat,
) -> Result<(Store, Seq<ValueView>), Error>
    decreases top - level,
{
    if level >= top {
        Ok((store, values))
    } else {
        match layer::<C>(store, values, level) {
            Err(error) => Err(error),
            Ok((after, above)) => layers::<C>(after, above, level + 1, top),
        }
    }
}

/// The store and the root of the tree over `values`: the balanced tree whose
/// leaves are the values, filled up with empty trees to the least power of two.
/// The tree over no value is the default leaf.
pub open spec fn vector_tree_outcome<C: Construct>(store: Store, values: Seq<ValueView>) -> Result<
    (Store, ValueView),
    Error,
> {
    if !fits(values.len()) {
        Err(Error::InvalidIndex)
    } else if values.len() == 0 {
        Ok((store, blank_leaf::<C>()))
    } else {
        match layers::<C>(store, values, 0, levels(values.len())) {
            Err(error) => Err(error),
            Ok((after, top)) => Ok((after, top[0])),
        }
    }
}

/// A layer over some values has half as many nodes, rounded up.
pub proof fn lemma_layer_len<C: Construct>(store: Store, values: Seq<ValueView>, level: nat)
    requires
        layer::<C>(store, values, level) is Ok,
    ensures
        layer::<C>(store, values, level)->Ok_0.1.len() == (values.len() + 1) / 2,
    decreases values.len(),
{
    if values.len() >= 2 {
        let key = C::digest(values[0], values[1]);
        let grown = inserted(store, key, values[0], values[1])->Ok_0;
        lemma_layer_len::<C>(grown, values.skip(2), level);
    }
}

/// The layers over at least one value, up to a level at which they all fit
/// below one node, end in one node.
pub proof fn lemma_layers_single<C: Construct>(
    store: Store,
    values: Seq<ValueView>,
    level: nat,
    top: nat,
)
    requires
        level <= top,
        1 <= values.len() <= pow2((top - level) as nat),
        layers::<C>(store, values, level, top) is Ok,
    ensures
        layers::<C>(store, values, level, top)->Ok_0.1.len() == 1,
    decreases top - level,
{
    if level < top {
        lemma_layer_len::<C>(store, values, level);
        let (after, above) = layer::<C>(store, values, level)->Ok_0;
        assert(pow2((top - level) as nat) == 2 * pow2((top - level - 1) as nat));
        lemma_layers_single::<C>(after, above, level + 1, top);
    } else {
        assert(pow2(0) == 1);
    }
}

/// The values that a list of values stands for.
pub open spec fn views_of(values: Seq<Value>) -> Seq<ValueView> {
    Seq::new(values.len(), |i: int| values[i]@)
}

/// Builds the nodes one level above `values`.
fn layer_up<C: Construct, DB: WriteBackend + EmptyBackend<C>>(
    values: &Vec<Value>,
    db: &mut DB,
    level: usize,
) -> (r: Result<Vec<Value>, Error>)
    requires
        old(db).inv(),
    ensures
        final(db).inv(),
        final(db).faultless() == old(db).faultless(),
        agrees(
            old(db).faultless(),
            r,
            (final(db).store(), views_of(r->Ok_0@)),
            layer::<C>(old(db).store(), views_of(values@), level as nat),
        ),
{
    let ghost whole = views_of(values@);
    let ghost target = layer::<C>(db.store(), whole, level as nat);
    let mut above: Vec<Value> = Vec::new();
    let mut i: usize = 0;
    proof {
        assert(whole.skip(0) =~= whole);
        lemma_layer_after::<C>(db.store(), whole, level as nat);
    }
    while i < values.len()
        invariant
            db.inv(),
            db.faultless() == old(db).faultless(),
            whole == views_of(values@),
            i <= values@.len(),
            target == layer::<C>(old(db).store(), whole, level as nat),
            target == after_layer(
                views_of(above@),
                layer::<C>(db.store(), whole.skip(i as int), level as nat),
            ),
        decreases values@.len() - i,
    {
        let ghost rest = whole.skip(i as int);
        let ghost before = views_of(above@);
        let left = values[i].clone();
        assert(rest[0] == left@);
        let right = if i + 1 < values.len() {
            assert(rest[1] == values@[i + 1]@);
            values[i + 1].clone()
        } else {
            match db.empty_at(level) {
                Ok(empty) => empty,
                Err(error) => {
                    return Err(error);
                },
            }
        };
        let key = C::intermediate_of(&left, &right);
        db.insert(key.clone(), (left, right))?;
        proof {
            let node = ValueView::Intermediate(key@);
            assert(views_of(above@.push(Value::Intermediate(key))) =~= before.push(node));
            if i + 1 < values@.len() {
                assert(rest.skip(2) =~= whole.skip(i + 2));
                assert(before + (seq![node] + layer::<C>(
                    db.store(),
                    whole.skip(i + 2),
                    level as nat,
                )->Ok_0.1) =~= before.push(node) + layer::<C>(
                    db.store(),
                    whole.skip(i + 2),
                    level as nat,
                )->Ok_0.1);
            } else {
                assert(whole.skip(values@.len() as int) =~= Seq::<ValueView>::empty());
                assert(before + seq![node] =~= before.push(node));
                assert(before.push(node) + Seq::<ValueView>::empty() =~= before.push(node));
            }
        }
        above.push(Value::Intermediate(key));
        i = if i + 1 < values.len() {
            i + 2
        } else {
            values.len()
        };
    }
    proof {
        assert(whole.skip(values@.len() as int) =~= Seq::<ValueView>::empty());
        assert(views_of(above@) + Seq::<ValueView>::empty() =~= views_of(above@));
    }
    Ok(above)
}

/// The result of a layer of which `done` has been built and `rest` is what
/// the values that are left give.
pub open spec fn after_layer(
    done: Seq<ValueView>,
    rest: Result<(Store, Seq<ValueView>), Error>,
) -> Result<(Store, Seq<ValueView>), Error> {
    match rest {
        Err(error) => Err(error),
        Ok((store, more)) => Ok((store, done + more)),
    }
}

/// A layer of which nothing has been built yet is the layer.
pub proof fn lemma_layer_after<C: Construct>(store: Store, values: Seq<ValueView>, level: nat)
    ensures
        after_layer(Seq::empty(), layer::<C>(store, values, level)) == layer::<C>(
            store,
            values,
            level,
        ),
{
    match layer::<C>(store, values, level) {
        Ok((after, more)) => {
            assert(Seq::<ValueView>::empty() + more =~= more);
        },
        Err(_) => {},
    }
}

/// Copies a list of values.
fn copy_values(values: &Vec<Value>) -> (r: Vec<Value>)
    ensures
        views_of(r@) == views_of(values@),
{
    let mut copy: Vec<Value> = Vec::new();
    let mut i: usize = 0;
    while i < values.len()
        invariant
            i <= values@.len(),
            copy@.len() == i,
            views_of(copy@) == views_of(values@).take(i as int),
        decreases values@.len() - i,
    {
        let value = values[i].clone();
        proof {
            assert(views_of(values@).take(i + 1) =~= views_of(values@).take(i as int).push(
                value@,
            ));
            assert(views_of(copy@.push(value)) =~= views_of(copy@).push(value@));
        }
        copy.push(value);
        i = i + 1;
    }
    proof {
        assert(views_of(values@).take(values@.len() as int) =~= views_of(values@));
    }
    copy
}

/// Builds the tree over `values` and returns its root: the balanced tree whose
/// leaves are the values, filled up with empty trees to the least power of two.
#[verifier::loop_isolation(false)]
pub fn vector_tree<C: Construct, DB: WriteBackend + EmptyBackend<C>>(
    values: &Vec<Value>,
    db: &mut DB,
) -> (r: Result<Value, Error>)
    requires
        old(db).inv(),
    ensures
        final(db).inv(),
        final(db).faultless() == old(db).faultless(),
        agrees(
            old(db).faultless(),
            r,
            (final(db).store(), r->Ok_0@),
            vector_tree_outcome::<C>(old(db).store(), views_of(values@)),
        ),
{
    let (_, depth) = match shape_of(values.len()) {
        Some(shape) => shape,
        None => {
            return Err(Error::InvalidIndex);
        },
    };
    if values.len() == 0 {
        return Ok(Value::End(C::default_end()));
    }
    let ghost target = layers::<C>(db.store(), views_of(values@), 0, depth as nat);
    let mut current: Vec<Value> = copy_values(values);
    let mut level: usize = 0;
    while level < depth
        invariant
            db.inv(),
            db.faultless() == old(db).faultless(),
            level <= depth,
            target == layers::<C>(db.store(), views_of(current@), level as nat, depth as nat),
        decreases depth - level,
    {
        let ghost before = layers::<C>(db.store(), views_of(current@), level as nat, depth as nat);
        let ghost step = layer::<C>(db.store(), views_of(current@), level as nat);
        proof {
            assert(before == (match step {
                Err(error) => Err(error),
                Ok((after, above)) => layers::<C>(after, above, level as nat + 1, depth as nat),
            }));
        }
        current = layer_up::<C, DB>(&current, db, level)?;
        level = level + 1;
    }
    proof {
        lemma_capacity_is_power(1, values@.len());
        lemma_capacity_from_grows(1, values@.len());
        lemma_layers_single::<C>(old(db).store(), views_of(values@), 0, depth as nat);
    }
    Ok(current.pop().unwrap())
}

/// Reads the value of field `index` from the tree over the `count` fields of a
/// record.
pub fn field_of<C: Construct, DB: ReadBackend>(
    root: &Value,
    db: &mut DB,
    index: usize,
    count: usize,
) -> (r: Result<Value, Error>)
    requires
        old(db).inv(),
    ensures
        final(db).inv(),
        final(db).store() == old(db).store(),
        final(db).faultless() == old(db).faultless(),
        agrees(
            old(db).faultless(),
            r,
            r->Ok_0@,
            tuple_value_outcome(
                old(db).store(),
                TupleView { root: root@, empty: blank_leaf::<C>(), len: count as nat },
                index as nat,
            ),
        ),
{
    let fields = MerkleTuple::<Dangling, C>::from_leaked(
        root.clone(),
        Value::End(C::default_end()),
        count,
    );
    fields.get_value(db, index)
}

/// The values of the first `upto` fields of a record of `count` fields, or
/// the error of the first field that cannot be read.
pub open spec fn fields_outcome<C: Construct>(
    store: Store,
    root: ValueView,
    count: nat,
    upto: nat,
) -> Result<Seq<ValueView>, Error>
    decreases upto,
{
    if upto == 0 {
        Ok(Seq::empty())
    } else {
        match fields_outcome::<C>(store, root, count, (upto - 1) as nat) {
            Err(error) => Err(error),
            Ok(before) => match tuple_value_outcome(
                store,
                TupleView { root, empty: blank_leaf::<C>(), len: count },
                (upto - 1) as nat,
            ) {
                Err(error) => Err(error),
                Ok(value) => Ok(before.push(value)),
            },
        }
    }
}

/// Reads the values of all fields from the tree over the `count` fields of a
/// record, the first field first.
pub fn fields_of<C: Construct, DB: ReadBackend>(root: &Value, db: &mut DB, count: usize) -> (r:
    Result<Vec<Value>, Error>)
    requires
        old(db).inv(),
    ensures
        final(db).inv(),
        final(db).store() == old(db).store(),
        final(db).faultless() == old(db).faultless(),
        agrees(
            old(db).faultless(),
            r,
            views_of(r->Ok_0@),
            fields_outcome::<C>(old(db).store(), root@, count as nat, count as nat),
        ),
{
    let mut fields: Vec<Value> = Vec::new();
    let mut i: usize = 0;
    assert(views_of(fields@) =~= Seq::<ValueView>::empty());
    while i < count
        invariant
            db.inv(),
            db.store() == old(db).store(),
            db.faultless() == old(db).faultless(),
            i <= count,
            fields_outcome::<C>(old(db).store(), root@, count as nat, i as nat) == Ok::<
                Seq<ValueView>,
                Error,
            >(views_of(fields@)),
        decreases count - i,
    {
        let ghost before = views_of(fields@);
        let field = match field_of::<C, DB>(root, db, i, count) {
            Ok(field) => field,
            Err(error) => {
                proof {
                    if db.faultless() {
                        lemma_fields_fail::<C>(db.store(), root@, count as nat, (i + 1) as nat, count as nat);
                    }
                }
                return Err(error);
            },
        };
        proof {
            assert(views_of(fields@.push(field)) =~= before.push(field@));
        }
        fields.push(field);
        i = i + 1;
    }
    Ok(fields)
}

/// Where the first fields cannot be read, more fields cannot either, for the
/// same reason.
pub proof fn lemma_fields_fail<C: Construct>(
    store: Store,
    root: ValueView,
    count: nat,
    low: nat,
    high: nat,
)
    requires
        low <= high,
        fields_outcome::<C>(store, root, count, low) is Err,
    ensures
        fields_outcome::<C>(store, root, count, high) == fields_outcome::<C>(store, root, count, low),
    decreases high,
{
    if low < high {
        lemma_fields_fail::<C>(store, root, count, low, (high - 1) as nat);
    }
}

} // verus!
