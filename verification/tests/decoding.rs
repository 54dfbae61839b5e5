use base2048::decode;

#[test]
fn exact_decodings() {
    assert_eq!(decode("\u{55ff}"), Some(vec![0xff]));
    assert_eq!(decode("\u{4e00}\u{4e00}\u{4e01}"), Some(vec![0, 0, 0, 0]));
    assert_eq!(
        decode("\u{4e91}\u{5315}\u{52f1}\u{4faf}"),
        Some(vec![0x12, 0x34, 0x56, 0x78, 0x9a])
    );
    assert_eq!(decode("\u{5355}\u{50aa}5"), Some(vec![0xaa; 3]));
    assert_eq!(
        decode("\u{4e08}\u{4e80}\u{5408}\u{4e50}\u{5103}\u{5220}\u{4f21}2"),
        Some(vec![1, 2, 3, 4, 5, 6, 7, 8, 9, 10])
    );
}

#[test]
fn padding_of_a_final_primary_symbol_is_dropped() {
    // Eleven bits make one byte; the three bits behind it do not count,
    // whatever they are.
    assert_eq!(decode("\u{4e00}"), Some(vec![0]));
    assert_eq!(decode("\u{4e07}"), Some(vec![0]));
    assert_eq!(decode("\u{4e08}"), Some(vec![1]));
    // Twenty-two bits make two bytes.
    assert_eq!(decode("\u{55ff}\u{55c0}"), Some(vec![0xff, 0xff]));
    // No extra byte comes from what is left in the accumulator.
    assert_eq!(decode("\u{55ff}\u{55ff}").map(|bytes| bytes.len()), Some(2));
}

#[test]
fn tail_symbol_completes_the_last_byte() {
    let head = "\u{4e00}\u{4e00}\u{4e00}\u{4e00}\u{4e00}";
    // Five symbols hold 55 bits: the seventh byte lacks one bit.
    assert_eq!(decode(&format!("{head}3")), Some(vec![0; 7]));
    assert_eq!(decode(&format!("{head}7")), Some(vec![0, 0, 0, 0, 0, 0, 1]));
    // Two symbols hold 22 bits: the third byte lacks two bits.
    assert_eq!(decode("\u{4e00}\u{4e00}1"), Some(vec![0, 0, 0]));
    assert_eq!(decode("\u{4e00}\u{4e00}3"), Some(vec![0, 0, 1]));
    assert_eq!(decode("\u{4e00}\u{4e00}5"), Some(vec![0, 0, 2]));
    assert_eq!(decode("\u{4e00}\u{4e00}7"), Some(vec![0, 0, 3]));
    // Seven symbols hold 77 bits: the tenth byte lacks three bits.
    let seven = "\u{4e00}\u{4e00}\u{4e00}\u{4e00}\u{4e00}\u{4e00}\u{4e00}";
    for value in 0..8u8 {
        let mut expected = vec![0u8; 10];
        expected[9] = value;
        assert_eq!(decode(&format!("{seven}{value}")), Some(expected));
    }
}

#[test]
fn character_after_a_tail_symbol_is_refused() {
    assert_eq!(decode("3\u{4e00}"), None);
    assert_eq!(decode("\u{4e00}\u{4e00}3\u{4e00}"), None);
    assert_eq!(decode("\u{4e00}\u{4e00}33"), None);
    let head = "\u{4e00}\u{4e00}\u{4e00}\u{4e00}\u{4e00}";
    assert_eq!(decode(&format!("{head}3\u{4e00}")), None);
    assert_eq!(decode(&format!("{head}37")), None);
}

#[test]
fn unknown_character_is_refused() {
    assert_eq!(decode("X"), None);
    assert_eq!(decode("\u{4e00}X"), None);
    assert_eq!(decode("X\u{4e00}"), None);
    assert_eq!(decode("\u{4e00}X\u{4e00}"), None);
    assert_eq!(decode(" "), None);
    assert_eq!(decode("8"), None);
    assert_eq!(decode("\u{4e00}\u{4e00}9"), None);
    // The neighbours of the primary alphabet.
    assert_eq!(decode("\u{4dff}"), None);
    assert_eq!(decode("\u{5600}"), None);
    assert_eq!(decode("\u{10ffff}"), None);
    assert_eq!(decode("\u{0}"), None);
}

#[test]
fn tail_symbol_with_broken_padding_is_refused() {
    let head = "\u{4e00}\u{4e00}\u{4e00}\u{4e00}\u{4e00}";
    // One bit is lacking: the two bits behind it have to be ones.
    for value in [0u8, 1, 2, 4, 5, 6] {
        assert_eq!(decode(&format!("{head}{value}")), None);
    }
    // Two bits are lacking: the one bit behind them has to be a one.
    for value in [0u8, 2, 4, 6] {
        assert_eq!(decode(&format!("\u{4e00}\u{4e00}{value}")), None);
    }
}

#[test]
fn tail_symbol_that_cannot_complete_a_byte_is_refused() {
    // No symbol before it: the byte lacks eight bits.
    for value in 0..8u8 {
        assert_eq!(decode(&format!("{value}")), None);
    }
    // Eleven bits before it: the second byte lacks five bits.
    assert_eq!(decode("\u{4e00}7"), None);
    // Thirty-three bits before it: the fifth byte lacks seven bits.
    assert_eq!(decode("\u{4e00}\u{4e00}\u{4e00}7"), None);
    // Eighty-eight bits before it: the twelfth byte lacks eight bits.
    let eight = "\u{4e00}".repeat(8);
    assert_eq!(decode(&format!("{eight}7")), None);
}
