//! Little-endian leaves: how numbers are written into the bytes of a leaf.

use crate::value::{Construct, ValueView};
use vstd::prelude::*;

verus! {

/// The `width` lowest bytes of `value`, the lowest first. Where the value has
/// fewer bytes, zeros follow.
pub open spec fn le_bytes(value: nat, width: nat) -> Seq<u8>
    decreases width,
{
    if width == 0 {
        Seq::empty()
    } else {
        seq![(value % 256) as u8] + le_bytes(value / 256, (width - 1) as nat)
    }
}

/// The number that `bytes` spell, the lowest byte first.
pub open spec fn le_value(bytes: Seq<u8>) -> nat
    decreases bytes.len(),
{
    if bytes.len() == 0 {
        0
    } else {
        bytes[0] as nat + 256 * le_value(bytes.drop_first())
    }
}

/// 256 to the power of `width`.
pub open spec fn pow256(width: nat) -> nat
    decreases width,
{
    if width == 0 {
        1
    } else {
        256 * pow256((width - 1) as nat)
    }
}

/// As many bytes are written as are asked for.
pub proof fn lemma_le_bytes_len(value: nat, width: nat)
    ensures
        le_bytes(value, width).len() == width,
    decreases width,
{
    if width > 0 {
        lemma_le_bytes_len(value / 256, (width - 1) as nat);
    }
}

/// The number that bytes spell is below 256 to the power of their number.
pub proof fn lemma_value_below(bytes: Seq<u8>)
    ensures
        le_value(bytes) < pow256(bytes.len()),
    decreases bytes.len(),
{
    if bytes.len() > 0 {
        lemma_value_below(bytes.drop_first());
        let rest = le_value(bytes.drop_first());
        let bound = pow256((bytes.len() - 1) as nat);
        assert(bytes[0] as nat + 256 * rest < 256 * bound) by (nonlinear_arith)
            requires
                rest < bound,
                bytes[0] < 256,
        ;
    }
}

/// A number that fits in `width` bytes is read back from them.
pub proof fn lemma_le_round_trip(value: nat, width: nat)
    requires
        value < pow256(width),
    ensures
        le_value(le_bytes(value, width)) == value,
    decreases width,
{
    if width > 0 {
        let rest = le_bytes(value / 256, (width - 1) as nat);
        let all = le_bytes(value, width);
        assert(all.drop_first() =~= rest);
        lemma_le_round_trip(value / 256, (width - 1) as nat);
        assert(all[0] == (value % 256) as u8);
        assert(value == value % 256 + 256 * (value / 256));
    }
}

/// Sixteen bytes are what a `u128` holds.
pub proof fn lemma_pow256_of_16()
    ensures
        pow256(16) == 0x1_0000_0000_0000_0000_0000_0000_0000_0000,
        pow256(8) == 0x1_0000_0000_0000_0000,
{
    reveal_with_fuel(pow256, 17);
}

/// Powers of 256 grow with the exponent.
pub proof fn lemma_pow256_monotone(low: nat, high: nat)
    requires
        low <= high,
    ensures
        1 <= pow256(low) <= pow256(high),
    decreases high,
{
    if low < high {
        lemma_pow256_monotone(low, (high - 1) as nat);
    } else if low > 0 {
        lemma_pow256_monotone((low - 1) as nat, (low - 1) as nat);
    }
}

/// Writes the `width` lowest bytes of `value`, the lowest first.
pub fn encode_le(value: u128, width: usize) -> (r: Vec<u8>)
    ensures
        r@ == le_bytes(value as nat, width as nat),
{
    let mut bytes: Vec<u8> = Vec::new();
    let mut rest: u128 = value;
    let mut i: usize = 0;
    while i < width
        invariant
            i <= width,
            bytes@.len() == i,
            le_bytes(value as nat, width as nat) == bytes@ + le_bytes(
                rest as nat,
                (width - i) as nat,
            ),
        decreases width - i,
    {
        let low: u8 = (rest % 256) as u8;
        proof {
            let tail = le_bytes((rest / 256) as nat, (width - i - 1) as nat);
            assert(le_bytes(rest as nat, (width - i) as nat) == seq![low] + tail);
            assert(bytes@ + (seq![low] + tail) =~= bytes@.push(low) + tail);
        }
        bytes.push(low);
        rest = rest / 256;
        i = i + 1;
    }
    proof {
        assert(bytes@ + le_bytes(rest as nat, 0) =~= bytes@);
    }
    bytes
}

/// Reads the number that the first `width` bytes of `bytes` spell, the lowest
/// byte first. At most 16 bytes fit.
pub fn decode_le(bytes: &Vec<u8>, width: usize) -> (r: u128)
    requires
        width <= 16,
        width <= bytes@.len(),
    ensures
        r == le_value(bytes@.take(width as int)),
{
    let ghost head = bytes@.take(width as int);
    let mut value: u128 = 0;
    let mut i: usize = width;
    proof {
        assert(head.skip(width as int) =~= Seq::<u8>::empty());
    }
    while i > 0
        invariant
            i <= width,
            width <= 16,
            width <= bytes@.len(),
            head == bytes@.take(width as int),
            value == le_value(head.skip(i as int)),
        decreases i,
    {
        i = i - 1;
        proof {
            let window = head.skip(i as int);
            assert(window.drop_first() =~= head.skip(i + 1));
            assert(window[0] == bytes@[i as int]);
            lemma_value_below(window);
            lemma_pow256_monotone(window.len(), 16);
            lemma_pow256_of_16();
        }
        value = value * 256 + bytes[i] as u128;
    }
    proof {
        assert(head.skip(0) =~= head);
    }
    value
}

/// The width of the leaves that carry numbers: that of the default leaf, and
/// at least the eight bytes of a length.
pub open spec fn leaf_width<C: Construct>() -> nat {
    if C::blank().len() < 8 {
        8
    } else {
        C::blank().len()
    }
}

/// The leaf that carries the number `value`.
pub open spec fn number_leaf<C: Construct>(value: nat) -> ValueView {
    ValueView::End(le_bytes(value, leaf_width::<C>()))
}

/// Makes the payload of the leaf that carries `value`.
pub fn number_end<C: Construct>(value: u128) -> (r: Vec<u8>)
    ensures
        ValueView::End(r@) == number_leaf::<C>(value as nat),
{
    let blank = C::default_end();
    let width: usize = if blank.len() < 8 {
        8
    } else {
        blank.len()
    };
    encode_le(value, width)
}

} // verus!
