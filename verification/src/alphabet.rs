//! The two alphabets of the encoding.
//!
//! The primary alphabet has 2048 symbols, one for each 11-bit group. The tail
//! alphabet has 8 symbols, one for each 3-bit value; a tail symbol only ever
//! stands last in an encoded string. No character belongs to both.

use vstd::prelude::*;

verus! {

/// The number of bits that a primary symbol carries.
pub const BITS_PER_CHAR: u32 = 11;

/// The largest number of bits that a tail symbol carries.
pub const TAIL_BITS: u32 = 3;

/// The number of symbols in the primary alphabet.
pub const PRIMARY_LEN: u32 = 2048;

/// The code point of the primary symbol for group 0. The primary alphabet is
/// the run of `PRIMARY_LEN` code points that starts here: U+4E00 to U+55FF,
/// each of them one printable ideograph.
pub const PRIMARY_FIRST: u32 = 0x4E00;

/// The tail alphabet, indexed by the 3-bit value that each symbol stands for.
pub const TAIL: [char; 8] = ['0', '1', '2', '3', '4', '5', '6', '7'];

/// Forward table of the primary alphabet: the symbol for a group index.
pub open spec fn primary(index: int) -> char
    recommends
        0 <= index < PRIMARY_LEN,
{
    (PRIMARY_FIRST + index) as char
}

/// Reverse table of the primary alphabet: the group index of a symbol, or
/// `None` for a character that is not a primary symbol.
pub open spec fn primary_position(symbol: char) -> Option<int> {
    if PRIMARY_FIRST <= symbol as int && (symbol as int) < PRIMARY_FIRST + PRIMARY_LEN {
        Some(symbol as int - PRIMARY_FIRST)
    } else {
        None
    }
}

/// Forward table of the tail alphabet: the symbol for a 3-bit value.
pub open spec fn tail(index: int) -> char
    recommends
        0 <= index < TAIL.len(),
{
    TAIL[index]
}

/// Reverse table of the tail alphabet: the 3-bit value of a tail symbol, or
/// `None` for a character that is not one.
pub open spec fn tail_position(symbol: char) -> Option<int> {
    if '0' <= symbol && symbol <= '7' {
        Some(symbol as int - '0' as int)
    } else {
        None
    }
}

/// Whether every character of `symbols` belongs to the primary alphabet.
pub open spec fn all_primary(symbols: Seq<char>) -> bool {
    forall|i: int| 0 <= i < symbols.len() ==> (#[trigger] primary_position(symbols[i])) is Some
}

/// The group indices that a string of primary symbols stands for.
pub open spec fn positions(symbols: Seq<char>) -> Seq<nat>
    recommends
        all_primary(symbols),
{
    Seq::new(symbols.len(), |i: int| primary_position(symbols[i]).unwrap() as nat)
}

/// The primary symbols for a sequence of group indices.
pub open spec fn symbols(groups: Seq<nat>) -> Seq<char> {
    Seq::new(groups.len(), |i: int| primary(groups[i] as int))
}

/// `char::from_u32` of the standard library gives the character with the
/// code point `code` where `code` is a Unicode scalar value, that is, at most
/// 0x10FFFF and not a surrogate (0xD800 to 0xDFFF); for every other number
/// it gives `None`.
pub assume_specification[ char::from_u32 ](code: u32) -> (c: Option<char>)
    ensures
        code <= 0xD7FF || 0xE000 <= code <= 0x10FFFF ==> c == Some(code as char),
        0xD7FF < code < 0xE000 || 0x10FFFF < code ==> c is None,
;

/// Looks up the primary symbol for a group index.
pub fn primary_symbol(index: u16) -> (symbol: char)
    requires
        index < PRIMARY_LEN,
    ensures
        symbol == primary(index as int),
{
    char::from_u32(PRIMARY_FIRST + index as u32).unwrap()
}

/// Looks up the group index of a character in the primary alphabet.
pub fn primary_index(symbol: char) -> (index: Option<u16>)
    ensures
        index is Some <==> primary_position(symbol) is Some,
        index matches Some(i) ==> primary_position(symbol) == Some(i as int),
{
    let code: u32 = symbol as u32;
    if PRIMARY_FIRST <= code && code < PRIMARY_FIRST + PRIMARY_LEN {
        Some((code - PRIMARY_FIRST) as u16)
    } else {
        None
    }
}

/// Looks up the tail symbol for a 3-bit value.
pub fn tail_symbol(index: u8) -> (symbol: char)
    requires
        index < TAIL.len(),
    ensures
        symbol == tail(index as int),
{
    TAIL[index as usize]
}

/// Looks up the 3-bit value of a character in the tail alphabet.
pub fn tail_index(symbol: char) -> (index: Option<u8>)
    ensures
        index is Some <==> tail_position(symbol) is Some,
        index matches Some(i) ==> tail_position(symbol) == Some(i as int),
{
    let mut i: u8 = 0;
    while i < 8
        invariant
            i <= TAIL.len() == 8,
            forall|j: int| 0 <= j < i ==> TAIL[j] != symbol,
        decreases 8 - i,
    {
        if TAIL[i as usize] == symbol {
            return Some(i);
        }
        i += 1;
    }
    None
}

/// The forward and the reverse table of the primary alphabet are inverses of
/// each other: every group index from 0 to 2047 is the position of its own
/// symbol, and every character that has a position is the symbol for it.
pub proof fn lemma_primary_tables_inverse(index: int, symbol: char)
    ensures
        0 <= index < PRIMARY_LEN ==> primary_position(primary(index)) == Some(index),
        primary_position(symbol) matches Some(i) ==> 0 <= i < PRIMARY_LEN && primary(i)
            == symbol,
{
}

/// The forward and the reverse table of the tail alphabet are inverses of
/// each other.
pub proof fn lemma_tail_tables_inverse(index: int, symbol: char)
    ensures
        0 <= index < TAIL.len() ==> tail_position(tail(index)) == Some(index),
        tail_position(symbol) matches Some(i) ==> 0 <= i < TAIL.len() && tail(i) == symbol,
{
}

/// Group indices are read back from their primary symbols unchanged.
pub proof fn lemma_positions_of_symbols(groups: Seq<nat>)
    requires
        forall|i: int| 0 <= i < groups.len() ==> groups[i] < PRIMARY_LEN,
    ensures
        all_primary(symbols(groups)),
        positions(symbols(groups)) == groups,
{
    assert forall|i: int| 0 <= i < groups.len() implies (#[trigger] primary_position(
        symbols(groups)[i],
    )) == Some(groups[i] as int) by {
        lemma_primary_tables_inverse(groups[i] as int, symbols(groups)[i]);
    }
    assert(positions(symbols(groups)) =~= groups);
}

/// The two alphabets are disjoint: no character has a position in both.
pub proof fn lemma_alphabets_disjoint(symbol: char)
    ensures
        !(primary_position(symbol) is Some && tail_position(symbol) is Some),
{
}

} // verus!
