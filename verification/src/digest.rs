//! The constructs that hash with SHA-256.

use crate::scalar::{
    encode_le, le_bytes, lemma_le_bytes_len, lemma_le_round_trip, lemma_pow256_of_16,
};
use crate::value::{bytes_of, Construct, Value, ValueView};
use sha2::Digest;
use vstd::prelude::*;

verus! {

/// The SHA-256 digest of `data`.
pub uninterp spec fn sha256(data: Seq<u8>) -> Seq<u8>;

/// Calls `sha2::Sha256::digest`: the result is the SHA-256 digest of the bytes
/// given, which depends on nothing but those bytes.
#[verifier::external_body]
fn sha256_of(data: &Vec<u8>) -> (digest: Vec<u8>)
    ensures
        digest@ == sha256(data@),
{
    sha2::Sha256::digest(data.as_slice()).to_vec()
}

/// The bytes of a value: the key of an inner node, the payload of a leaf.
fn value_bytes(value: &Value) -> (r: &Vec<u8>)
    ensures
        r@ == bytes_of(value@),
{
    match value {
        Value::Intermediate(key) => key,
        Value::End(end) => end,
    }
}

/// Appends `more` to `bytes`.
fn append_bytes(bytes: &mut Vec<u8>, more: &Vec<u8>)
    ensures
        final(bytes)@ == old(bytes)@ + more@,
{
    let mut i: usize = 0;
    while i < more.len()
        invariant
            i <= more.len(),
            bytes@ == old(bytes)@ + more@.take(i as int),
        decreases more.len() - i,
    {
        bytes.push(more[i]);
        proof {
            assert(more@.take(i + 1) =~= more@.take(i as int).push(more@[i as int]));
            assert(bytes@ =~= old(bytes)@ + more@.take(i + 1));
        }
        i = i + 1;
    }
    proof {
        assert(more@.take(more.len() as int) =~= more@);
    }
}

/// The byte that tells the two variants of a value apart.
pub open spec fn tag_of(value: ValueView) -> u8 {
    match value {
        ValueView::Intermediate(_) => 0,
        ValueView::End(_) => 1,
    }
}

/// A value as it enters the hash: its variant, the number of its bytes in
/// eight little-endian bytes, and its bytes.
pub open spec fn framed(value: ValueView) -> Seq<u8> {
    seq![tag_of(value)] + le_bytes(bytes_of(value).len(), 8) + bytes_of(value)
}

/// The SHA-256 digest of the frame of `left` followed by that of `right`.
pub open spec fn sha256_pair(left: ValueView, right: ValueView) -> Seq<u8> {
    sha256(framed(left) + framed(right))
}

/// Two values whose frames start alike are the same value: no frame is the
/// beginning of another.
pub proof fn lemma_framed_prefix(a: ValueView, b: ValueView, rest_a: Seq<u8>, rest_b: Seq<u8>)
    requires
        bytes_of(a).len() < 0x1_0000_0000_0000_0000,
        bytes_of(b).len() < 0x1_0000_0000_0000_0000,
        framed(a) + rest_a == framed(b) + rest_b,
    ensures
        a == b,
        rest_a == rest_b,
{
    let whole = framed(a) + rest_a;
    let la = bytes_of(a).len();
    let lb = bytes_of(b).len();
    lemma_le_bytes_len(la, 8);
    lemma_le_bytes_len(lb, 8);
    assert(whole[0] == tag_of(a));
    assert((framed(b) + rest_b)[0] == tag_of(b));
    assert(whole.subrange(1, 9) =~= le_bytes(la, 8));
    assert((framed(b) + rest_b).subrange(1, 9) =~= le_bytes(lb, 8));
    lemma_pow256_of_16();
    lemma_le_round_trip(la, 8);
    lemma_le_round_trip(lb, 8);
    assert(la == lb);
    assert(whole.subrange(9, 9 + la as int) =~= bytes_of(a));
    assert((framed(b) + rest_b).subrange(9, 9 + lb as int) =~= bytes_of(b));
    assert(whole.skip(9 + la as int) =~= rest_a);
    assert((framed(b) + rest_b).skip(9 + lb as int) =~= rest_b);
}

/// Two pairs that enter the hash as the same bytes are the same pair: the
/// keys of two different pairs differ unless SHA-256 itself collides.
pub proof fn law_frames_tell_pairs_apart(
    left: ValueView,
    right: ValueView,
    other_left: ValueView,
    other_right: ValueView,
)
    requires
        bytes_of(left).len() < 0x1_0000_0000_0000_0000,
        bytes_of(right).len() < 0x1_0000_0000_0000_0000,
        bytes_of(other_left).len() < 0x1_0000_0000_0000_0000,
        bytes_of(other_right).len() < 0x1_0000_0000_0000_0000,
        framed(left) + framed(right) == framed(other_left) + framed(other_right),
    ensures
        left == other_left,
        right == other_right,
{
    lemma_framed_prefix(left, other_left, framed(right), framed(other_right));
    assert(framed(right) + Seq::<u8>::empty() =~= framed(right));
    assert(framed(other_right) + Seq::<u8>::empty() =~= framed(other_right));
    lemma_framed_prefix(right, other_right, Seq::empty(), Seq::empty());
}

/// Appends the frame of `value` to `bytes`.
fn append_framed(bytes: &mut Vec<u8>, value: &Value)
    ensures
        final(bytes)@ == old(bytes)@ + framed(value@),
{
    let tag: u8 = match value {
        Value::Intermediate(_) => 0,
        Value::End(_) => 1,
    };
    let body = value_bytes(value);
    let length = encode_le(body.len() as u128, 8);
    bytes.push(tag);
    append_bytes(bytes, &length);
    append_bytes(bytes, body);
    assert(bytes@ =~= old(bytes)@ + framed(value@));
}

/// Computes `sha256_pair`.
pub fn hash_pair(left: &Value, right: &Value) -> (key: Vec<u8>)
    ensures
        key@ == sha256_pair(left@, right@),
{
    let mut data: Vec<u8> = Vec::new();
    append_framed(&mut data, left);
    append_framed(&mut data, right);
    assert(data@ =~= framed(left@) + framed(right@));
    sha256_of(&data)
}

/// The construct whose leaves carry byte strings of any length, whose default
/// leaf is the empty string, and whose keys are SHA-256 digests of framed pairs.
pub struct Sha256Construct;

impl Construct for Sha256Construct {
    open spec fn digest(left: ValueView, right: ValueView) -> Seq<u8> {
        sha256_pair(left, right)
    }

    open spec fn blank() -> Seq<u8> {
        Seq::empty()
    }

    fn intermediate_of(left: &Value, right: &Value) -> (key: Vec<u8>) {
        hash_pair(left, right)
    }

    fn default_end() -> (end: Vec<u8>) {
        Vec::new()
    }
}

/// The construct whose leaves are words of 32 bytes, whose default leaf is the
/// word of zeros, and whose keys are SHA-256 digests of framed pairs.
pub struct Sha256WordConstruct;

impl Construct for Sha256WordConstruct {
    open spec fn digest(left: ValueView, right: ValueView) -> Seq<u8> {
        sha256_pair(left, right)
    }

    open spec fn blank() -> Seq<u8> {
        Seq::new(32, |i: int| 0u8)
    }

    fn intermediate_of(left: &Value, right: &Value) -> (key: Vec<u8>) {
        hash_pair(left, right)
    }

    fn default_end() -> (end: Vec<u8>) {
        let mut end: Vec<u8> = Vec::new();
        while end.len() < 32
            invariant
                end@.len() <= 32,
                forall|i: int| 0 <= i < end@.len() ==> end@[i] == 0u8,
            decreases 32 - end@.len(),
        {
            end.push(0);
        }
        assert(end@ =~= Seq::new(32, |i: int| 0u8));
        end
    }
}

} // verus!
