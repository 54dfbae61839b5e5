use base2048::alphabet::{
    primary_index, primary_symbol, tail_index, tail_symbol, BITS_PER_CHAR, PRIMARY_FIRST,
    PRIMARY_LEN, TAIL, TAIL_BITS,
};

#[test]
fn constants() {
    assert_eq!(BITS_PER_CHAR, 11);
    assert_eq!(TAIL_BITS, 3);
    assert_eq!(PRIMARY_LEN, 1 << BITS_PER_CHAR);
    assert_eq!(TAIL.len(), 1 << TAIL_BITS);
    assert_eq!(PRIMARY_FIRST, 0x4e00);
    assert_eq!(TAIL, ['0', '1', '2', '3', '4', '5', '6', '7']);
}

#[test]
fn primary_symbols() {
    assert_eq!(primary_symbol(0), '\u{4e00}');
    assert_eq!(primary_symbol(1), '\u{4e01}');
    assert_eq!(primary_symbol(7), '\u{4e07}');
    assert_eq!(primary_symbol(1365), '\u{5355}');
    assert_eq!(primary_symbol(2047), '\u{55ff}');
    assert_eq!(primary_index('\u{4e00}'), Some(0));
    assert_eq!(primary_index('\u{5355}'), Some(1365));
    assert_eq!(primary_index('\u{55ff}'), Some(2047));
}

#[test]
fn primary_tables_are_inverses() {
    for index in 0..2048u16 {
        assert_eq!(primary_index(primary_symbol(index)), Some(index));
    }
    let mut found: u32 = 0;
    for code in 0..=0x10ffffu32 {
        if let Some(symbol) = char::from_u32(code) {
            if let Some(index) = primary_index(symbol) {
                assert_eq!(primary_symbol(index), symbol);
                found += 1;
            }
        }
    }
    assert_eq!(found, 2048);
}

#[test]
fn characters_outside_the_primary_alphabet() {
    assert_eq!(primary_index('\u{4dff}'), None);
    assert_eq!(primary_index('\u{5600}'), None);
    assert_eq!(primary_index('a'), None);
    assert_eq!(primary_index('\u{0}'), None);
    assert_eq!(primary_index('\u{10ffff}'), None);
}

#[test]
fn tail_tables_are_inverses() {
    for index in 0..8u8 {
        assert_eq!(tail_symbol(index), TAIL[index as usize]);
        assert_eq!(tail_index(tail_symbol(index)), Some(index));
    }
    assert_eq!(tail_symbol(0), '0');
    assert_eq!(tail_symbol(5), '5');
    assert_eq!(tail_symbol(7), '7');
    assert_eq!(tail_index('/'), None);
    assert_eq!(tail_index('8'), None);
    assert_eq!(tail_index('9'), None);
    assert_eq!(tail_index('\u{4e00}'), None);
}

#[test]
fn alphabets_are_disjoint() {
    for index in 0..8u8 {
        assert_eq!(primary_index(tail_symbol(index)), None);
    }
    for index in 0..2048u16 {
        assert_eq!(tail_index(primary_symbol(index)), None);
    }
}
