//! Bit strings: the mathematical model shared by the encoder and the decoder.
//!
//! A bit string is a `Seq<bool>` read most significant bit first. Bytes and
//! 11-bit groups are both fixed-width numbers laid end to end in one string.

use vstd::prelude::*;
use vstd::arithmetic::div_mod::{
    lemma_div_denominator, lemma_fundamental_div_mod, lemma_fundamental_div_mod_converse,
    lemma_mod_breakdown, lemma_multiply_divide_lt,
};
use vstd::arithmetic::power2::{
    lemma2_to64, lemma_pow2_adds, lemma_pow2_pos, lemma_pow2_unfold, pow2,
};
use vstd::bits::{
    lemma_u32_low_bits_mask_is_mod, lemma_u32_pow2_no_overflow, lemma_u32_shl_is_mul,
    lemma_u32_shr_is_div,
};

verus! {

/// The number that a bit string denotes, most significant bit first.
pub open spec fn bits_value(bits: Seq<bool>) -> nat
    decreases bits.len(),
{
    if bits.len() == 0 {
        0
    } else {
        2 * bits_value(bits.drop_last()) + if bits.last() {
            1nat
        } else {
            0nat
        }
    }
}

/// The `width` low bits of `value`, most significant bit first.
pub open spec fn value_bits(value: nat, width: nat) -> Seq<bool>
    decreases width,
{
    if width == 0 {
        Seq::empty()
    } else {
        value_bits(value / 2, (width - 1) as nat).push(value % 2 == 1)
    }
}

/// A run of `count` one-bits: the padding of a final, incomplete symbol.
pub open spec fn ones(count: nat) -> Seq<bool> {
    Seq::new(count, |i: int| true)
}

/// `width` bits are written, whatever the number.
pub proof fn lemma_value_bits_len(value: nat, width: nat)
    ensures
        value_bits(value, width).len() == width,
    decreases width,
{
    if width > 0 {
        lemma_value_bits_len(value / 2, (width - 1) as nat);
    }
}

/// A string of `n` bits denotes a number below `2^n`.
pub proof fn lemma_bits_value_bound(bits: Seq<bool>)
    ensures
        bits_value(bits) < pow2(bits.len()),
    decreases bits.len(),
{
    if bits.len() == 0 {
        lemma2_to64();
    } else {
        lemma_bits_value_bound(bits.drop_last());
        lemma_pow2_unfold(bits.len());
    }
}

/// Writing out the number that a bit string denotes gives the string back.
pub proof fn lemma_bits_of_value(bits: Seq<bool>)
    ensures
        value_bits(bits_value(bits), bits.len()) == bits,
    decreases bits.len(),
{
    if bits.len() > 0 {
        lemma_bits_of_value(bits.drop_last());
        assert(bits.drop_last().push(bits.last()) =~= bits);
    }
}

/// A number below `2^width` is the number that its `width` bits denote.
pub proof fn lemma_value_of_bits(value: nat, width: nat)
    requires
        value < pow2(width),
    ensures
        bits_value(value_bits(value, width)) == value,
    decreases width,
{
    if width == 0 {
        lemma2_to64();
    } else {
        lemma_pow2_unfold(width);
        lemma_value_of_bits(value / 2, (width - 1) as nat);
        let high = value_bits(value / 2, (width - 1) as nat);
        assert(high.push(value % 2 == 1).drop_last() =~= high);
    }
}

/// The `width` bits of a number are its high `width - low` bits followed by
/// its low `low` bits.
pub proof fn lemma_value_bits_split(value: nat, width: nat, low: nat)
    requires
        low <= width,
    ensures
        value_bits(value, width) == value_bits(value / pow2(low), (width - low) as nat)
            + value_bits(value, low),
    decreases low,
{
    if low == 0 {
        lemma2_to64();
        assert(value_bits(value, width) + Seq::<bool>::empty() =~= value_bits(value, width));
    } else {
        let rest = (low - 1) as nat;
        lemma_value_bits_split(value / 2, (width - 1) as nat, rest);
        lemma_pow2_unfold(low);
        lemma_pow2_pos(rest);
        lemma_div_denominator(value as int, 2, pow2(rest) as int);
        let high = value_bits(value / pow2(low), (width - low) as nat);
        let bit = value % 2 == 1;
        assert((high + value_bits(value / 2, rest)).push(bit) =~= high + value_bits(
            value / 2,
            rest,
        ).push(bit));
    }
}

/// Only the residue modulo `2^width` shows in the `width` low bits.
pub proof fn lemma_value_bits_mod(value: nat, width: nat)
    ensures
        value_bits(value % pow2(width), width) == value_bits(value, width),
    decreases width,
{
    if width > 0 {
        let rest = (width - 1) as nat;
        lemma_pow2_unfold(width);
        lemma_pow2_pos(rest);
        lemma_mod_breakdown(value as int, 2, pow2(rest) as int);
        lemma_value_bits_mod(value / 2, rest);
        let low = value % pow2(width);
        assert(low == 2 * ((value / 2) % pow2(rest)) + value % 2);
        assert(low / 2 == (value / 2) % pow2(rest));
        assert(low % 2 == value % 2);
    } else {
        lemma_pow2_pos(width);
    }
}

/// Shifting `high` left by `low_width` places and filling them with `low`
/// lays the two bit strings end to end.
pub proof fn lemma_value_bits_join(high: nat, width: nat, low: nat, low_width: nat)
    requires
        low < pow2(low_width),
    ensures
        value_bits(high * pow2(low_width) + low, width + low_width) == value_bits(high, width)
            + value_bits(low, low_width),
{
    let joined = high * pow2(low_width) + low;
    lemma_value_bits_split(joined, width + low_width, low_width);
    lemma_fundamental_div_mod_converse(joined as int, pow2(low_width) as int, high as int, low as int);
    lemma_value_bits_mod(joined, low_width);
}

/// `2^count - 1` is written as `count` one-bits.
pub proof fn lemma_ones_value(count: nat)
    ensures
        pow2(count) >= 1,
        value_bits((pow2(count) - 1) as nat, count) == ones(count),
        bits_value(ones(count)) == pow2(count) - 1,
    decreases count,
{
    lemma_pow2_pos(count);
    if count == 0 {
        assert(value_bits((pow2(count) - 1) as nat, count) =~= ones(count));
    } else {
        let rest = (count - 1) as nat;
        lemma_ones_value(rest);
        lemma_pow2_unfold(count);
        assert(ones(rest).push(true) =~= ones(count));
    }
    lemma_value_of_bits((pow2(count) - 1) as nat, count);
}

/// Numbers of `width` bits each, laid end to end.
pub open spec fn pack(values: Seq<nat>, width: nat) -> Seq<bool>
    decreases values.len(),
{
    if values.len() == 0 {
        Seq::empty()
    } else {
        pack(values.drop_last(), width) + value_bits(values.last(), width)
    }
}

/// The numbers read off a bit string `width` bits at a time. A final run of
/// fewer than `width` bits is left out.
pub open spec fn unpack(bits: Seq<bool>, width: nat) -> Seq<nat>
    recommends
        width > 0,
{
    Seq::new(
        bits.len() / width,
        |j: int| bits_value(bits.subrange(j * width, j * width + width)),
    )
}

/// Each number takes `width` bits.
pub proof fn lemma_pack_len(values: Seq<nat>, width: nat)
    ensures
        pack(values, width).len() == values.len() * width,
    decreases values.len(),
{
    if values.len() > 0 {
        lemma_pack_len(values.drop_last(), width);
        lemma_value_bits_len(values.last(), width);
        assert((values.len() - 1) * width + width == values.len() * width) by (nonlinear_arith);
    }
}

/// One more number adds its bits at the end.
pub proof fn lemma_pack_push(values: Seq<nat>, value: nat, width: nat)
    ensures
        pack(values.push(value), width) == pack(values, width) + value_bits(value, width),
{
    assert(values.push(value).drop_last() =~= values);
}

/// The bits from `j * width` on, `width` of them, are those of the number at `j`.
pub proof fn lemma_pack_chunk(values: Seq<nat>, width: nat, j: int)
    requires
        0 <= j < values.len(),
    ensures
        j * width + width <= pack(values, width).len(),
        pack(values, width).subrange(j * width, j * width + width) == value_bits(
            values[j],
            width,
        ),
    decreases values.len(),
{
    let front = pack(values.drop_last(), width);
    let back = value_bits(values.last(), width);
    lemma_pack_len(values.drop_last(), width);
    lemma_value_bits_len(values.last(), width);
    assert(0 <= j * width) by (nonlinear_arith)
        requires
            0 <= j,
            0 <= width,
    ;
    if j < values.len() - 1 {
        lemma_pack_chunk(values.drop_last(), width, j);
        assert((front + back).subrange(j * width, j * width + width) =~= front.subrange(
            j * width,
            j * width + width,
        ));
    } else {
        assert((front + back).subrange(j * width, j * width + width) =~= back);
    }
}

/// Reading back numbers that were laid end to end gives the numbers; up to
/// `width - 1` further bits make no difference.
pub proof fn lemma_unpack_pack(values: Seq<nat>, width: nat, rest: Seq<bool>)
    requires
        width > 0,
        rest.len() < width,
        forall|i: int| 0 <= i < values.len() ==> values[i] < pow2(width),
    ensures
        unpack(pack(values, width) + rest, width) == values,
{
    let packed = pack(values, width);
    lemma_pack_len(values, width);
    lemma_fundamental_div_mod_converse(
        (packed + rest).len() as int,
        width as int,
        values.len() as int,
        rest.len() as int,
    );
    assert forall|j: int| 0 <= j < values.len() implies unpack(packed + rest, width)[j]
        == values[j] by {
        lemma_pack_chunk(values, width, j);
        assert(0 <= j * width) by (nonlinear_arith)
            requires
                0 <= j,
                0 <= width,
        ;
        assert((packed + rest).subrange(j * width, j * width + width) =~= packed.subrange(
            j * width,
            j * width + width,
        ));
        lemma_value_of_bits(values[j], width);
    }
    assert(unpack(packed + rest, width) =~= values);
}

/// Every number read off a bit string `width` bits at a time is below `2^width`.
pub proof fn lemma_unpack_bound(bits: Seq<bool>, width: nat)
    requires
        width > 0,
    ensures
        unpack(bits, width).len() == bits.len() / width,
        forall|j: int|
            0 <= j < unpack(bits, width).len() ==> (#[trigger] unpack(bits, width)[j]) < pow2(
                width,
            ),
{
    lemma_fundamental_div_mod(bits.len() as int, width as int);
    assert forall|j: int| 0 <= j < unpack(bits, width).len() implies (#[trigger] unpack(
        bits,
        width,
    )[j]) < pow2(width) by {
        assert(0 <= j * width && j * width + width <= bits.len()) by (nonlinear_arith)
            requires
                0 <= j < bits.len() / width,
                bits.len() == width * (bits.len() / width) + bits.len() % width,
                0 <= bits.len() % width,
                width > 0,
        ;
        lemma_bits_value_bound(bits.subrange(j * width, j * width + width));
    }
}

/// Laying the first `count` numbers read off a bit string end to end gives
/// the first `count * width` bits of the string.
pub proof fn lemma_pack_unpack_prefix(bits: Seq<bool>, width: nat, count: nat)
    requires
        width > 0,
        count <= bits.len() / width,
    ensures
        count * width <= bits.len(),
        pack(unpack(bits, width).take(count as int), width) == bits.take((count * width) as int),
    decreases count,
{
    lemma_fundamental_div_mod(bits.len() as int, width as int);
    assert(count * width <= bits.len()) by (nonlinear_arith)
        requires
            count <= bits.len() / width,
            bits.len() == width * (bits.len() / width) + bits.len() % width,
            0 <= bits.len() % width,
            width > 0,
    ;
    if count == 0 {
        assert(count * width == 0) by (nonlinear_arith)
            requires
                count == 0,
        ;
        assert(bits.take((count * width) as int) =~= Seq::<bool>::empty());
    } else {
        let fewer = (count - 1) as nat;
        let start = fewer * width;
        lemma_pack_unpack_prefix(bits, width, fewer);
        assert(start + width == count * width) by (nonlinear_arith)
            requires
                start == (count - 1) * width,
        ;
        let chunk = bits.subrange(start as int, (start + width) as int);
        lemma_bits_of_value(chunk);
        let numbers = unpack(bits, width).take(count as int);
        assert(numbers.drop_last() =~= unpack(bits, width).take(fewer as int));
        assert(numbers.last() == bits_value(chunk));
        assert(bits.take(start as int) + chunk =~= bits.take((count * width) as int));
    }
}

/// Laying the numbers read off a bit string end to end gives the string back,
/// but for a final run of fewer than `width` bits.
pub proof fn lemma_pack_unpack(bits: Seq<bool>, width: nat)
    requires
        width > 0,
    ensures
        bits.len() / width * width <= bits.len(),
        pack(unpack(bits, width), width) == bits.take((bits.len() / width * width) as int),
{
    let count = bits.len() / width;
    lemma_pack_unpack_prefix(bits, width, count);
    assert(unpack(bits, width).take(count as int) =~= unpack(bits, width));
}

/// The bytes of a sequence as numbers.
pub open spec fn byte_values(bytes: Seq<u8>) -> Seq<nat> {
    Seq::new(bytes.len(), |i: int| bytes[i] as nat)
}

/// The bit string of a byte sequence: eight bits for each byte, in order.
pub open spec fn byte_stream(bytes: Seq<u8>) -> Seq<bool> {
    pack(byte_values(bytes), 8)
}

/// The bytes read off a bit string, eight bits at a time. A final run of
/// fewer than eight bits is left out.
pub open spec fn stream_bytes(bits: Seq<bool>) -> Seq<u8> {
    unpack(bits, 8).map_values(|value: nat| value as u8)
}

/// One more byte adds its eight bits at the end of the bit string.
pub proof fn lemma_byte_stream_push(bytes: Seq<u8>, byte: u8)
    ensures
        byte_stream(bytes.push(byte)) == byte_stream(bytes) + value_bits(byte as nat, 8),
        byte_stream(bytes.push(byte)).len() == byte_stream(bytes).len() + 8,
{
    assert(byte_values(bytes.push(byte)) =~= byte_values(bytes).push(byte as nat));
    lemma_pack_push(byte_values(bytes), byte as nat, 8);
    lemma_value_bits_len(byte as nat, 8);
}

/// Each byte takes eight bits.
pub proof fn lemma_byte_stream_len(bytes: Seq<u8>)
    ensures
        byte_stream(bytes).len() == 8 * bytes.len(),
{
    lemma_pack_len(byte_values(bytes), 8);
}

/// Reading bytes back off their own bit string gives the bytes; up to seven
/// further bits make no difference.
pub proof fn lemma_stream_bytes_of_byte_stream(bytes: Seq<u8>, rest: Seq<bool>)
    requires
        rest.len() < 8,
    ensures
        stream_bytes(byte_stream(bytes) + rest) == bytes,
{
    lemma2_to64();
    lemma_unpack_pack(byte_values(bytes), 8, rest);
    assert(stream_bytes(byte_stream(bytes) + rest) =~= bytes);
}

// Shifts and masks on machine words, stated over the bits that they move.

/// The number written as `count` one-bits: `2^count - 1`.
pub fn ones_mask(count: u32) -> (mask: u32)
    requires
        count < 32,
    ensures
        mask == pow2(count as nat) - 1,
        value_bits(mask as nat, count as nat) == ones(count as nat),
{
    proof {
        lemma_u32_pow2_no_overflow(count as nat);
        lemma_u32_shl_is_mul(1, count);
        lemma_ones_value(count as nat);
    }
    (1u32 << count) - 1
}

/// The number that the `count` low bits of `value` denote.
pub fn low_bits(value: u32, count: u32) -> (low: u32)
    requires
        count < 32,
    ensures
        low == value as nat % pow2(count as nat),
        low < pow2(count as nat),
        value_bits(low as nat, count as nat) == value_bits(value as nat, count as nat),
{
    let mask = ones_mask(count);
    proof {
        lemma_u32_pow2_no_overflow(count as nat);
        lemma_u32_low_bits_mask_is_mod(value, count as nat);
        lemma_value_bits_mod(value as nat, count as nat);
    }
    value & mask
}

/// The number that the `count` high bits of a `width`-bit number denote.
pub fn high_bits(value: u32, width: u32, count: u32) -> (high: u32)
    requires
        count <= width < 32,
        value < pow2(width as nat),
    ensures
        high == value as nat / pow2((width - count) as nat),
        high < pow2(count as nat),
        value_bits(value as nat, width as nat) == value_bits(high as nat, count as nat)
            + value_bits(value as nat, (width - count) as nat),
{
    proof {
        let low = (width - count) as nat;
        lemma_u32_shr_is_div(value, (width - count) as u32);
        lemma_value_bits_split(value as nat, width as nat, low);
        lemma_pow2_pos(low);
        lemma_pow2_adds(count as nat, low);
        lemma_multiply_divide_lt(value as int, pow2(low) as int, pow2(count as nat) as int);
    }
    value >> (width - count)
}

/// The number whose bits are those of `high` followed by the `low_width`
/// bits of `low`.
pub fn join_bits(high: u32, low: u32, low_width: u32) -> (joined: u32)
    requires
        low_width < 32,
        low < pow2(low_width as nat),
        high * pow2(low_width as nat) <= u32::MAX,
    ensures
        joined == high * pow2(low_width as nat) + low,
{
    proof {
        lemma_u32_pow2_no_overflow(low_width as nat);
        lemma_u32_shl_is_mul(high, low_width);
        lemma_u32_shl_is_mul(1, low_width);
        let shifted = high << low_width;
        assert(shifted | low == shifted + low) by (bit_vector)
            requires
                low_width < 32,
                low < (1u32 << low_width),
                shifted == high << low_width,
        ;
    }
    (high << low_width) | low
}

} // verus!
