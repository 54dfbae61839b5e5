use base2048::{decode, encode};

#[test]
fn encode_decode_roundtrip() {
    for tv in &[
        vec![],
        vec![0],
        vec![216, 110, 27, 35, 23, 49, 153, 7, 161, 234, 63],
        vec![0b11111111, 0b11111111],
        vec![
            0b11111000, 0b00011111, 0b00000011, 0b11100000, 0b01111100, 0b00001111, 0b10000001,
            0b11110000, 0b00111110, 0b00000111, 0b11000000,
        ],
        vec![
            0b11111000, 0b00011111, 0b00000011, 0b11100000, 0b01111100, 0b00001111, 0b10000001,
            0b11110000, 0b00111110, 0b00000111, 0b11000000, 0b11111000,
        ],
        vec![0b10101010; 3],
        vec![0b10101010; 7],
        vec![0b10101010; 10],
        vec![0b00000000; 3],
        vec![0b00000000; 7],
        vec![0b00000000; 10],
        vec![0b11111111; 3],
        vec![0b11111111; 7],
        vec![0b11111111; 10],
        vec![0b01010101; 3],
        vec![0b01010101; 7],
        vec![0b01010101; 10],
        vec![0b11110100; 3],
        vec![0b11110100; 7],
        vec![0b11110100; 10],
        vec![0b11110110; 3],
        vec![0b11110110; 7],
        vec![0b11110110; 10],
        vec![0b11110001; 3],
        vec![0b11110001; 7],
        vec![0b11110001; 10],
    ] {
        let encoded = encode(&tv[..]);
        let decoded = decode(&encoded).unwrap();
        assert_eq!(tv[..], decoded[..]);
    }
}

#[test]
fn test_all_characters() {
    for i in 0..=u16::MAX {
        let two_bytes = i.to_be_bytes();
        let encoded = encode(&two_bytes[..]);
        let decoded = decode(&encoded).unwrap();
        assert_eq!(two_bytes[..], decoded[..]);
    }
}

/// Bytes from a fixed linear congruential sequence.
fn scrambled(len: usize, seed: u32) -> Vec<u8> {
    let mut state: u32 = seed;
    let mut out: Vec<u8> = Vec::with_capacity(len);
    for _ in 0..len {
        state = state.wrapping_mul(1664525).wrapping_add(1013904223);
        out.push((state >> 24) as u8);
    }
    out
}

#[test]
fn round_trip_at_every_length() {
    // Lengths 0 to 44 leave every number of bits from 0 to 10 behind the
    // last whole group, four times over.
    for len in 0..45usize {
        let payloads: Vec<Vec<u8>> = vec![
            vec![0x00; len],
            vec![0xff; len],
            vec![0xaa; len],
            vec![0x55; len],
            scrambled(len, 1),
            scrambled(len, 0xdead_beef),
        ];
        for payload in &payloads {
            let encoded = encode(payload);
            assert_eq!(decode(&encoded), Some(payload.clone()));
        }
    }
}

#[test]
fn round_trip_of_every_single_byte() {
    for byte in 0..=u8::MAX {
        let encoded = encode(&[byte]);
        assert_eq!(encoded.chars().count(), 1);
        assert_eq!(decode(&encoded), Some(vec![byte]));
    }
}

#[test]
fn round_trip_of_a_long_payload() {
    let payload = scrambled(100_000, 7);
    let encoded = encode(&payload);
    assert_eq!(encoded.chars().count(), (8 * payload.len() + 10) / 11);
    assert_eq!(decode(&encoded), Some(payload));
}

#[test]
fn empty_input() {
    assert_eq!(encode(&[]), "");
    assert_eq!(decode(""), Some(vec![]));
}

#[test]
fn single_zero_byte() {
    // Eight bits are left over, more than a tail symbol carries: the byte
    // becomes the primary symbol for 00000000 111.
    let encoded = encode(&[0]);
    assert_eq!(encoded.chars().count(), 1);
    assert_eq!(encoded, "\u{4e07}");
    assert_eq!(decode(&encoded), Some(vec![0]));
}

#[test]
fn hello() {
    let text = encode(b"hello");
    assert_eq!(text.chars().count(), 4);
    assert_eq!(decode(&text), Some(b"hello".to_vec()));
    assert_eq!(decode("hello"), None);
}
