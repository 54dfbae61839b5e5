//! The decoder: symbols back to bytes, or the refusal of a malformed string.

use vstd::prelude::*;
use vstd::arithmetic::power2::{lemma2_to64, pow2};
use vstd::std_specs::iter::IteratorSpec;
use crate::accumulator::Accumulator;
use crate::alphabet::{
    all_primary, positions, primary_index, primary_position, tail_index, tail_position,
    BITS_PER_CHAR, TAIL_BITS,
};
use crate::bits::{
    byte_stream, high_bits, lemma_byte_stream_len, lemma_byte_stream_push, lemma_pack_len,
    lemma_pack_push, lemma_stream_bytes_of_byte_stream, lemma_value_bits_len,
    lemma_value_of_bits, low_bits, ones, ones_mask, pack, stream_bytes, value_bits,
};

verus! {

/// A character that is no primary symbol stands before the last place.
pub open spec fn premature_sentinel(symbols: Seq<char>) -> bool {
    symbols.len() > 0 && !all_primary(symbols.drop_last())
}

/// The last character belongs to neither alphabet.
pub open spec fn unknown_symbol(symbols: Seq<char>) -> bool {
    &&& symbols.len() > 0
    &&& primary_position(symbols.last()) is None
    &&& tail_position(symbols.last()) is None
}

/// The number of bits that a tail symbol at the end of `symbols` has to
/// supply: as many as the last byte lacks after the symbols before it.
pub open spec fn tail_need(symbols: Seq<char>) -> int {
    8 - (BITS_PER_CHAR * (symbols.len() - 1)) % 8
}

/// The last character is a tail symbol that no encoding ends in: the last
/// byte lacks more bits than a tail symbol carries, or the bits of the symbol
/// behind those that the byte lacks are not all ones.
pub open spec fn invalid_tail_padding(symbols: Seq<char>) -> bool {
    &&& symbols.len() > 0
    &&& primary_position(symbols.last()) is None
    &&& tail_position(symbols.last()) matches Some(index) && {
        let need = tail_need(symbols);
        ||| need > TAIL_BITS
        ||| value_bits(index as nat, TAIL_BITS as nat).skip(need) != ones((TAIL_BITS - need) as nat)
    }
}

/// Whether a string is refused.
pub open spec fn malformed(symbols: Seq<char>) -> bool {
    premature_sentinel(symbols) || unknown_symbol(symbols) || invalid_tail_padding(symbols)
}

/// The bit string that a well-formed string of symbols stands for: 11 bits
/// for each primary symbol and, for a tail symbol at the end, the bits that
/// the last byte lacks.
pub open spec fn symbol_stream(symbols: Seq<char>) -> Seq<bool>
    recommends
        !malformed(symbols),
{
    if symbols.len() == 0 {
        Seq::empty()
    } else {
        let head = pack(positions(symbols.drop_last()), BITS_PER_CHAR as nat);
        match primary_position(symbols.last()) {
            Some(group) => head + value_bits(group as nat, BITS_PER_CHAR as nat),
            None => head + value_bits(
                tail_position(symbols.last()).unwrap() as nat,
                TAIL_BITS as nat,
            ).take(tail_need(symbols)),
        }
    }
}

/// The bytes that a string of symbols stands for, or `None` for a malformed
/// string. Bits behind the last whole byte are padding and are dropped.
pub open spec fn decode_spec(symbols: Seq<char>) -> Option<Seq<u8>> {
    if malformed(symbols) {
        None
    } else {
        Some(stream_bytes(symbol_stream(symbols)))
    }
}

/// The bits that a tail symbol at the end of a string supplies, as a number
/// of `need` bits, where the last byte lacks `need` bits; `None` where the
/// symbol is no valid end.
fn tail_bits(index: u8, need: u32) -> (ret: Option<u32>)
    requires
        index < 8,
        1 <= need <= 8,
    ensures
        ret is None <==> need > TAIL_BITS || value_bits(index as nat, 3).skip(need as int) != ones(
            (TAIL_BITS - need) as nat,
        ),
        ret matches Some(bits) ==> bits < pow2(need as nat) && value_bits(bits as nat, need as nat)
            == value_bits(index as nat, 3).take(need as int),
{
    if need > TAIL_BITS {
        return None;
    }
    let padding = TAIL_BITS - need;
    proof {
        lemma2_to64();
    }
    let low = low_bits(index as u32, padding);
    let mask = ones_mask(padding);
    let high = high_bits(index as u32, TAIL_BITS, need);
    proof {
        let whole = value_bits(index as nat, 3);
        lemma_value_bits_len(high as nat, need as nat);
        assert(whole.skip(need as int) =~= value_bits(low as nat, padding as nat));
        assert(whole.take(need as int) =~= value_bits(high as nat, need as nat));
        lemma_value_of_bits(low as nat, padding as nat);
        lemma_value_of_bits(mask as nat, padding as nat);
    }
    if low != mask {
        return None;
    }
    Some(high)
}

/// Moves every whole byte that the accumulator holds to the end of `bytes`.
fn flush(acc: &mut Accumulator, bytes: &mut Vec<u8>)
    ensures
        byte_stream(final(bytes)@) + final(acc)@ == byte_stream(old(bytes)@) + old(acc)@,
        final(acc)@.len() < 8,
{
    while acc.len() >= 8
        invariant
            byte_stream(bytes@) + acc@ == byte_stream(old(bytes)@) + old(acc)@,
        decreases acc@.len(),
    {
        let ghost full = acc@;
        let byte = acc.pop(8);
        proof {
            lemma2_to64();
            lemma_byte_stream_push(bytes@, byte as u8);
            assert(byte_stream(bytes@.push(byte as u8)) + acc@ =~= byte_stream(bytes@) + full);
        }
        bytes.push(byte as u8);
    }
}

/// One more primary symbol before the last place adds its 11 bits to what
/// the symbols before it stand for.
proof fn lemma_symbol_taken(s: Seq<char>, done: int)
    requires
        0 <= done < s.len(),
        all_primary(s.take(done)),
        primary_position(s[done]) is Some,
    ensures
        all_primary(s.take(done + 1)),
        pack(positions(s.take(done + 1)), 11) == pack(positions(s.take(done)), 11) + value_bits(
            primary_position(s[done]).unwrap() as nat,
            11,
        ),
{
    let group = primary_position(s[done]).unwrap() as nat;
    assert(positions(s.take(done)).push(group) =~= positions(s.take(done + 1)));
    lemma_pack_push(positions(s.take(done)), group, 11);
    assert forall|i: int| 0 <= i < done + 1 implies (#[trigger] primary_position(
        s.take(done + 1)[i],
    )) is Some by {
        if i < done {
            assert(s.take(done)[i] == s.take(done + 1)[i]);
        }
    }
}

/// Where the bits of `bytes` and the bits still `held` are what the symbols
/// before the last stand for, followed by the bits that the last symbol
/// supplies, nothing is held any more and `bytes` is what the string stands
/// for.
proof fn lemma_last_symbol_taken(
    s: Seq<char>,
    bytes: Seq<u8>,
    held: Seq<bool>,
    supplied: Seq<bool>,
)
    requires
        s.len() > 0,
        all_primary(s.drop_last()),
        held.len() < 8,
        byte_stream(bytes) + held == pack(positions(s.drop_last()), 11) + supplied,
        match primary_position(s.last()) {
            Some(group) => supplied == value_bits(group as nat, 11).take(
                11 - (11 * s.len()) % 8,
            ),
            None => tail_position(s.last()) is Some && !invalid_tail_padding(s) && supplied
                == value_bits(tail_position(s.last()).unwrap() as nat, 3).take(tail_need(s)),
        },
    ensures
        held.len() == 0,
        !malformed(s),
        decode_spec(s) == Some(bytes),
{
    let front = pack(positions(s.drop_last()), 11);
    lemma_pack_len(positions(s.drop_last()), 11);
    lemma_byte_stream_len(bytes);
    let rest = match primary_position(s.last()) {
        Some(group) => value_bits(group as nat, 11).skip(11 - (11 * s.len()) % 8),
        None => Seq::<bool>::empty(),
    };
    match primary_position(s.last()) {
        Some(group) => {
            lemma_value_bits_len(group as nat, 11);
        },
        None => {
            lemma_value_bits_len(tail_position(s.last()).unwrap() as nat, 3);
        },
    }
    assert((front + supplied).len() == (byte_stream(bytes) + held).len());
    assert(held.len() == 0);
    assert(byte_stream(bytes) =~= front + supplied);
    assert(symbol_stream(s) =~= byte_stream(bytes) + rest);
    lemma_stream_bytes_of_byte_stream(bytes, rest);
}

/// Decodes a string of symbols. Returns `None` for a malformed string.
///
/// Every symbol but the last is a primary symbol and gives its 11 bits. The
/// last symbol gives just the bits that complete the last byte, so that no
/// bit is held when the string ends and no partial byte is returned.
pub fn decode(string: &str) -> (ret: Option<Vec<u8>>)
    ensures
        ret is None <==> malformed(string@),
        ret matches Some(bytes) ==> decode_spec(string@) == Some(bytes@),
{
    let ghost s = string@;
    let mut ret: Vec<u8> = Vec::new();
    let mut acc = Accumulator::new();
    let mut residue: u32 = 0;
    let mut chars = string.chars();
    let first = chars.next();
    if first.is_none() {
        proof {
            assert(stream_bytes(Seq::<bool>::empty()) =~= ret@);
        }
        return Some(ret);
    }
    let mut symbol = first.unwrap();
    let mut next = chars.next();
    let ghost mut done: int = 0;
    proof {
        assert(s.take(0) =~= Seq::<char>::empty());
        assert(byte_stream(ret@) + acc@ =~= pack(positions(s.take(0)), 11));
        assert(s.skip(0).drop_first() =~= s.skip(1));
        if s.len() > 1 {
            assert(s.skip(1).drop_first() =~= s.skip(2));
        }
    }
    // Every symbol but the last: a primary symbol, all of whose bits count.
    while next.is_some()
        invariant
            s == string@,
            0 <= done < s.len(),
            chars.obeys_prophetic_iter_laws(),
            symbol == s[done],
            next == (if done + 1 < s.len() {
                Some(s[done + 1])
            } else {
                None
            }),
            done + 1 < s.len() ==> chars.remaining() == s.skip(done + 2),
            all_primary(s.take(done)),
            byte_stream(ret@) + acc@ == pack(positions(s.take(done)), 11),
            acc@.len() < 8,
            residue == (11 * done) % 8,
        decreases s.len() - done,
    {
        residue = (residue + BITS_PER_CHAR) % 8;
        let group = match primary_index(symbol) {
            Some(group) => group,
            None => {
                proof {
                    assert(s.drop_last()[done] == symbol);
                }
                return None;
            },
        };
        let ghost before = byte_stream(ret@) + acc@;
        proof {
            lemma2_to64();
        }
        acc.push(group as u32, BITS_PER_CHAR);
        flush(&mut acc, &mut ret);
        proof {
            lemma_symbol_taken(s, done);
            assert(byte_stream(ret@) + acc@ =~= before + value_bits(group as nat, 11));
            if done + 2 < s.len() {
                assert(s.skip(done + 2).drop_first() =~= s.skip(done + 3));
            }
            done = done + 1;
        }
        symbol = next.unwrap();
        next = chars.next();
    }
    // The last symbol: a primary symbol whose bits behind the last whole byte
    // are padding, or a tail symbol that completes the last byte.
    residue = (residue + BITS_PER_CHAR) % 8;
    let ghost before = byte_stream(ret@) + acc@;
    proof {
        lemma2_to64();
        lemma_pack_len(positions(s.take(done)), 11);
        lemma_byte_stream_len(ret@);
        assert(s.drop_last() =~= s.take(done));
    }
    let (width, bits) = match primary_index(symbol) {
        Some(group) => {
            let width = BITS_PER_CHAR - residue;
            let bits = high_bits(group as u32, BITS_PER_CHAR, width);
            proof {
                lemma_value_bits_len(bits as nat, width as nat);
                assert(value_bits(group as nat, 11).take(width as int) =~= value_bits(
                    bits as nat,
                    width as nat,
                ));
            }
            (width, bits)
        },
        None => match tail_index(symbol) {
            Some(index) => {
                let need = 8 - acc.len();
                match tail_bits(index, need) {
                    Some(bits) => (need, bits),
                    None => {
                        return None;
                    },
                }
            },
            None => {
                return None;
            },
        },
    };
    acc.push(bits, width);
    flush(&mut acc, &mut ret);
    proof {
        let supplied = value_bits(bits as nat, width as nat);
        assert(byte_stream(ret@) + acc@ =~= before + supplied);
        lemma_last_symbol_taken(s, ret@, acc@, supplied);
    }
    Some(ret)
}

} // verus!
