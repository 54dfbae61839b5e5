//! The encoder: bytes to symbols.

use vstd::prelude::*;
use vstd::arithmetic::power2::{lemma2_to64, pow2};
use crate::accumulator::Accumulator;
use crate::alphabet::{
    primary, primary_symbol, symbols, tail, tail_symbol, BITS_PER_CHAR, TAIL_BITS,
};
use crate::bits::{
    bits_value, byte_stream, lemma_byte_stream_push, lemma_pack_len, lemma_pack_push,
    lemma_unpack_pack, lemma_value_bits_len, lemma_value_of_bits, ones, ones_mask, pack, unpack,
    value_bits,
};
use crate::decoder::decode_spec;
use crate::theorems::{lemma_encoded_len, lemma_round_trip};

verus! {

/// The symbols that a byte sequence is written in.
///
/// The bits of the bytes are cut into groups of 11, and each group is written
/// as its primary symbol. Bits that are left over make one more symbol: up to
/// 3 of them, filled up to 3 bits with ones, make a tail symbol; 4 to 10 of
/// them, filled up to 11 bits with ones, make a primary symbol.
pub open spec fn encode_spec(bytes: Seq<u8>) -> Seq<char> {
    let stream = byte_stream(bytes);
    let left = stream.len() % (BITS_PER_CHAR as nat);
    if left == 0 {
        symbols(unpack(stream, BITS_PER_CHAR as nat))
    } else if left <= TAIL_BITS {
        let last = stream.skip(stream.len() - left) + ones((TAIL_BITS - left) as nat);
        symbols(unpack(stream, BITS_PER_CHAR as nat)).push(tail(bits_value(last) as int))
    } else {
        symbols(unpack(stream + ones((BITS_PER_CHAR - left) as nat), BITS_PER_CHAR as nat))
    }
}

/// `String::push` of the standard library appends the character to the end
/// of the string and leaves the characters before it as they were.
pub assume_specification[ String::push ](s: &mut String, c: char)
    ensures
        final(s)@ == old(s)@.push(c),
;

/// Encodes a byte sequence as a string of symbols.
///
/// Every byte goes into the accumulator, and a group leaves it as soon as 11
/// bits are held; what is held after the last byte is padded and written as
/// the final symbol.
pub fn encode(bytes: &[u8]) -> (ret: String)
    ensures
        ret@ == encode_spec(bytes@),
        ret@.len() == (8 * bytes@.len() + 10) / 11,
        decode_spec(ret@) == Some(bytes@),
{
    proof {
        lemma_encoded_len(bytes@);
        lemma_round_trip(bytes@);
    }
    let mut ret = String::new();
    let mut acc = Accumulator::new();
    let ghost mut groups: Seq<nat> = Seq::empty();
    let mut i: usize = 0;
    proof {
        lemma2_to64();
        assert(bytes@.take(0) =~= Seq::<u8>::empty());
        assert(pack(groups, 11) + acc@ =~= byte_stream(bytes@.take(0)));
    }
    while i < bytes.len()
        invariant
            i <= bytes.len(),
            acc@.len() < BITS_PER_CHAR,
            pack(groups, 11) + acc@ == byte_stream(bytes@.take(i as int)),
            forall|j: int| 0 <= j < groups.len() ==> groups[j] < pow2(11),
            ret@ == symbols(groups),
        decreases bytes.len() - i,
    {
        let byte = bytes[i];
        let ghost before = acc@;
        proof {
            lemma2_to64();
        }
        acc.push(byte as u32, 8);
        proof {
            lemma_value_bits_len(byte as nat, 8);
            lemma_byte_stream_push(bytes@.take(i as int), byte);
            assert(bytes@.take(i as int).push(byte) =~= bytes@.take(i + 1));
            assert(pack(groups, 11) + acc@ =~= (pack(groups, 11) + before) + value_bits(
                byte as nat,
                8,
            ));
        }
        if acc.len() >= BITS_PER_CHAR {
            let ghost full = acc@;
            let index = acc.pop(BITS_PER_CHAR);
            ret.push(primary_symbol(index as u16));
            proof {
                lemma_pack_push(groups, index as nat, 11);
                assert(pack(groups.push(index as nat), 11) + acc@ =~= pack(groups, 11) + full);
                assert(symbols(groups).push(primary(index as int)) =~= symbols(
                    groups.push(index as nat),
                ));
                groups = groups.push(index as nat);
            }
        }
        i += 1;
    }
    let left = acc.len();
    proof {
        lemma2_to64();
        assert(bytes@.take(i as int) =~= bytes@);
        lemma_pack_len(groups, 11);
        lemma_unpack_pack(groups, 11, acc@);
        assert(byte_stream(bytes@).skip(byte_stream(bytes@).len() - left) =~= acc@);
    }
    if left > 0 {
        let ghost held = acc@;
        if left <= TAIL_BITS {
            let padding = TAIL_BITS - left;
            acc.push(ones_mask(padding), padding);
            let index = acc.pop(TAIL_BITS);
            proof {
                lemma_value_bits_len(index as nat, 3);
                assert(value_bits(index as nat, 3) =~= held + ones(padding as nat));
                lemma_value_of_bits(index as nat, 3);
            }
            ret.push(tail_symbol(index as u8));
        } else {
            let padding = BITS_PER_CHAR - left;
            acc.push(ones_mask(padding), padding);
            let index = acc.pop(BITS_PER_CHAR);
            ret.push(primary_symbol(index as u16));
            proof {
                lemma_value_bits_len(index as nat, 11);
                assert(value_bits(index as nat, 11) =~= held + ones(padding as nat));
                lemma_pack_push(groups, index as nat, 11);
                let all = groups.push(index as nat);
                assert(pack(all, 11) + Seq::<bool>::empty() =~= byte_stream(bytes@) + ones(
                    padding as nat,
                ));
                lemma_unpack_pack(all, 11, Seq::<bool>::empty());
                assert(symbols(groups).push(primary(index as int)) =~= symbols(
                    all,
                ));
            }
        }
    }
    ret
}

} // verus!
