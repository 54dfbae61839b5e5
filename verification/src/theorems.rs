//! What holds of the encoder and the decoder together.

use vstd::prelude::*;
use vstd::arithmetic::power2::lemma2_to64;
use crate::alphabet::{
    all_primary, lemma_alphabets_disjoint, lemma_positions_of_symbols, lemma_tail_tables_inverse,
    positions, primary_position, symbols, tail, tail_position, PRIMARY_LEN,
};
use crate::bits::{
    bits_value, byte_stream, lemma_bits_of_value, lemma_bits_value_bound, lemma_byte_stream_len,
    lemma_pack_len, lemma_pack_unpack, lemma_stream_bytes_of_byte_stream, lemma_unpack_bound,
    lemma_value_bits_len, ones, pack, stream_bytes, unpack, value_bits,
};
use crate::decoder::{decode_spec, malformed, symbol_stream, tail_need};
use crate::encoder::encode_spec;

verus! {

/// A string of primary symbols stands for the whole bytes among the bits of
/// its groups.
proof fn lemma_decode_primary(groups: Seq<nat>)
    requires
        forall|i: int| 0 <= i < groups.len() ==> groups[i] < PRIMARY_LEN,
    ensures
        decode_spec(symbols(groups)) == Some(stream_bytes(pack(groups, 11))),
{
    let text = symbols(groups);
    if groups.len() > 0 {
        lemma_positions_of_symbols(groups);
        lemma_positions_of_symbols(groups.drop_last());
        assert(text.drop_last() =~= symbols(groups.drop_last()));
        assert(primary_position(text.last()) == Some(groups.last() as int));
        assert(symbol_stream(text) == pack(groups, 11));
    }
}

/// A string of primary symbols with a tail symbol behind them, where the
/// last byte lacks `need` bits and the bits of the tail symbol behind the
/// first `need` are ones, stands for the bytes among the bits of the groups
/// and those `need` bits.
proof fn lemma_decode_tail(groups: Seq<nat>, index: nat, need: int)
    requires
        forall|i: int| 0 <= i < groups.len() ==> groups[i] < PRIMARY_LEN,
        index < 8,
        need == 8 - (11 * groups.len()) % 8,
        need <= 3,
        value_bits(index, 3).skip(need) == ones((3 - need) as nat),
    ensures
        decode_spec(symbols(groups).push(tail(index as int))) == Some(
            stream_bytes(pack(groups, 11) + value_bits(index, 3).take(need)),
        ),
{
    let text = symbols(groups).push(tail(index as int));
    lemma_positions_of_symbols(groups);
    lemma_tail_tables_inverse(index as int, tail(index as int));
    lemma_alphabets_disjoint(tail(index as int));
    assert(text.drop_last() =~= symbols(groups));
    assert(text.last() == tail(index as int));
    assert(tail_need(text) == need);
}

/// The round trip where the encoder writes primary symbols only: no bit is
/// left over behind the last whole group, or more than three are.
proof fn lemma_round_trip_without_tail(bytes: Seq<u8>)
    requires
        (8 * bytes.len()) % 11 == 0 || (8 * bytes.len()) % 11 > 3,
    ensures
        decode_spec(encode_spec(bytes)) == Some(bytes),
{
    let stream = byte_stream(bytes);
    let left = stream.len() % 11;
    lemma_byte_stream_len(bytes);
    lemma2_to64();
    let padding = ones(((11 - left) % 11) as nat);
    let padded = stream + padding;
    assert(left == 0 ==> padded =~= stream);
    assert(encode_spec(bytes) == symbols(unpack(padded, 11)));
    lemma_unpack_bound(padded, 11);
    lemma_decode_primary(unpack(padded, 11));
    lemma_pack_unpack(padded, 11);
    assert(padded.take(padded.len() as int) =~= padded);
    lemma_stream_bytes_of_byte_stream(bytes, padding);
}

/// The round trip where the encoder ends in a tail symbol: one to three bits
/// are left over behind the last whole group.
proof fn lemma_round_trip_with_tail(bytes: Seq<u8>)
    requires
        1 <= (8 * bytes.len()) % 11 <= 3,
    ensures
        decode_spec(encode_spec(bytes)) == Some(bytes),
{
    let stream = byte_stream(bytes);
    let left = stream.len() % 11;
    lemma_byte_stream_len(bytes);
    lemma2_to64();
    let whole = unpack(stream, 11);
    let held = stream.skip(stream.len() - left);
    let last = held + ones((3 - left) as nat);
    let index = bits_value(last);
    lemma_bits_value_bound(last);
    lemma_bits_of_value(last);
    assert(encode_spec(bytes) == symbols(whole).push(tail(index as int)));
    assert(value_bits(index, 3).skip(left as int) =~= ones((3 - left) as nat));
    assert(value_bits(index, 3).take(left as int) =~= held);
    lemma_unpack_bound(stream, 11);
    lemma_decode_tail(whole, index, left as int);
    lemma_pack_unpack(stream, 11);
    assert(pack(whole, 11) + held =~= stream + Seq::<bool>::empty());
    lemma_stream_bytes_of_byte_stream(bytes, Seq::<bool>::empty());
}

/// Decoding what was encoded gives the bytes back: for every byte sequence
/// the encoder's string is well formed and stands for exactly those bytes.
pub proof fn lemma_round_trip(bytes: Seq<u8>)
    ensures
        decode_spec(encode_spec(bytes)) == Some(bytes),
{
    let left = (8 * bytes.len()) % 11;
    if 1 <= left <= 3 {
        lemma_round_trip_with_tail(bytes);
    } else {
        lemma_round_trip_without_tail(bytes);
    }
}

/// The encoder writes one symbol for every 11 bits or part of 11 bits: a
/// sequence of `n` bytes becomes `ceil(8 * n / 11)` symbols, whichever
/// alphabet the last one comes from.
pub proof fn lemma_encoded_len(bytes: Seq<u8>)
    ensures
        encode_spec(bytes).len() == (8 * bytes.len() + 10) / 11,
{
    lemma_byte_stream_len(bytes);
}

/// The encoder ends in a tail symbol exactly where 1 to 3 bits are left over
/// after the last whole group of 11. Every other symbol that it writes is a
/// primary symbol.
pub proof fn lemma_tail_symbol_use(bytes: Seq<u8>)
    ensures
        ({
            let encoded = encode_spec(bytes);
            let left = (8 * bytes.len()) % 11;
            &&& encoded.len() > 0 ==> all_primary(encoded.drop_last())
            &&& 1 <= left <= 3 <==> encoded.len() > 0 && tail_position(encoded.last()) is Some
            &&& 1 <= left <= 3 || all_primary(encoded)
        }),
{
    let stream = byte_stream(bytes);
    let left = stream.len() % 11;
    let encoded = encode_spec(bytes);
    lemma_byte_stream_len(bytes);
    lemma2_to64();
    if left == 0 || left > 3 {
        let padded = stream + ones(((11 - left) % 11) as nat);
        assert(left == 0 ==> padded =~= stream);
        lemma_unpack_bound(padded, 11);
        lemma_positions_of_symbols(unpack(padded, 11));
        if encoded.len() > 0 {
            assert forall|i: int| 0 <= i < encoded.len() - 1 implies (#[trigger] primary_position(
                encoded.drop_last()[i],
            )) is Some by {
                assert(encoded.drop_last()[i] == encoded[i]);
            }
            assert(primary_position(encoded[encoded.len() - 1]) is Some);
            lemma_alphabets_disjoint(encoded.last());
        }
    } else {
        let last = stream.skip(stream.len() - left) + ones((3 - left) as nat);
        lemma_unpack_bound(stream, 11);
        lemma_positions_of_symbols(unpack(stream, 11));
        lemma_bits_value_bound(last);
        lemma_tail_tables_inverse(bits_value(last) as int, tail(bits_value(last) as int));
        assert(encoded.drop_last() =~= symbols(unpack(stream, 11)));
    }
}

/// The decoder returns whole bytes only: a well-formed string of `n` symbols
/// that ends in a primary symbol stands for `floor(11 * n / 8)` bytes, and
/// one that ends in a tail symbol for one byte more than the `n - 1` symbols
/// before it hold.
pub proof fn lemma_decoded_len(symbols: Seq<char>)
    requires
        !malformed(symbols),
    ensures
        decode_spec(symbols) matches Some(bytes) && bytes.len() == (if symbols.len() > 0
            && primary_position(symbols.last()) is None {
            11 * (symbols.len() - 1) / 8 + 1
        } else {
            11 * symbols.len() as int / 8
        }),
{
    if symbols.len() > 0 {
        lemma_pack_len(positions(symbols.drop_last()), 11);
        match primary_position(symbols.last()) {
            Some(group) => {
                lemma_value_bits_len(group as nat, 11);
            },
            None => {
                lemma_value_bits_len(tail_position(symbols.last()).unwrap() as nat, 3);
            },
        }
    }
}

/// A string in which a tail symbol is followed by any other character is
/// refused.
pub proof fn lemma_tail_before_end_refused(symbols: Seq<char>, i: int)
    requires
        0 <= i < symbols.len() - 1,
        tail_position(symbols[i]) is Some,
    ensures
        decode_spec(symbols) is None,
{
    lemma_alphabets_disjoint(symbols[i]);
    assert(symbols.drop_last()[i] == symbols[i]);
}

/// A string in which a character of neither alphabet stands, at the end or
/// before it, is refused.
pub proof fn lemma_unknown_character_refused(symbols: Seq<char>, i: int)
    requires
        0 <= i < symbols.len(),
        primary_position(symbols[i]) is None,
        tail_position(symbols[i]) is None,
    ensures
        decode_spec(symbols) is None,
{
    if i < symbols.len() - 1 {
        assert(symbols.drop_last()[i] == symbols[i]);
    }
}

/// A string that ends in a tail symbol is refused where the last byte lacks
/// more bits than a tail symbol carries.
pub proof fn lemma_short_tail_refused(symbols: Seq<char>)
    requires
        symbols.len() > 0,
        tail_position(symbols.last()) is Some,
        tail_need(symbols) > 3,
    ensures
        decode_spec(symbols) is None,
{
    lemma_alphabets_disjoint(symbols.last());
}

/// A string that ends in a tail symbol is refused where one of the bits of
/// that symbol behind those that the last byte lacks is not a one.
pub proof fn lemma_broken_padding_refused(symbols: Seq<char>, index: int, k: int)
    requires
        symbols.len() > 0,
        tail_position(symbols.last()) == Some(index),
        tail_need(symbols) <= k < 3,
        !value_bits(index as nat, 3)[k],
    ensures
        decode_spec(symbols) is None,
{
    lemma_alphabets_disjoint(symbols.last());
    let need = tail_need(symbols);
    if need <= 3 {
        lemma_value_bits_len(index as nat, 3);
        assert(value_bits(index as nat, 3).skip(need)[k - need] == value_bits(index as nat, 3)[k]);
        assert(ones((3 - need) as nat)[k - need]);
    }
}

} // verus!
