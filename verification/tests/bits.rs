use base2048::accumulator::{Accumulator, CAPACITY};
use base2048::bits::{high_bits, join_bits, low_bits, ones_mask};

#[test]
fn masks_of_ones() {
    assert_eq!(ones_mask(0), 0);
    assert_eq!(ones_mask(1), 1);
    assert_eq!(ones_mask(3), 0b111);
    assert_eq!(ones_mask(11), 2047);
    assert_eq!(ones_mask(31), 0x7fff_ffff);
}

#[test]
fn low_and_high_bits() {
    assert_eq!(low_bits(0b110101, 3), 0b101);
    assert_eq!(low_bits(0b110101, 0), 0);
    assert_eq!(low_bits(0xffff_ffff, 31), 0x7fff_ffff);
    assert_eq!(high_bits(0b110101, 6, 2), 0b11);
    assert_eq!(high_bits(0b110101, 6, 6), 0b110101);
    assert_eq!(high_bits(0b110101, 6, 0), 0);
    assert_eq!(high_bits(0b011, 3, 1), 0);
    assert_eq!(high_bits(2047, 11, 4), 0b1111);
}

#[test]
fn joined_bits() {
    assert_eq!(join_bits(0b11, 0b01, 2), 0b1101);
    assert_eq!(join_bits(0, 0xff, 8), 0xff);
    assert_eq!(join_bits(0b101, 0, 3), 0b101000);
    assert_eq!(join_bits(7, 0, 0), 7);
}

#[test]
fn accumulator_is_a_queue_of_bits() {
    let mut acc = Accumulator::new();
    assert_eq!(acc.len(), 0);
    acc.push(0b1011_0010, 8);
    assert_eq!(acc.len(), 8);
    acc.push(0b0111_1111, 8);
    assert_eq!(acc.len(), 16);
    // The oldest eleven bits leave first.
    assert_eq!(acc.pop(11), 0b1011_0010_011);
    assert_eq!(acc.len(), 5);
    acc.push(0b111111, 6);
    assert_eq!(acc.pop(11), 0b11111_111111);
    assert_eq!(acc.len(), 0);
    acc.push(5, 3);
    assert_eq!(acc.pop(0), 0);
    assert_eq!(acc.pop(1), 1);
    assert_eq!(acc.pop(2), 1);
    assert_eq!(acc.len(), 0);
}

#[test]
fn accumulator_holds_up_to_its_capacity() {
    assert_eq!(CAPACITY, 31);
    let mut acc = Accumulator::new();
    acc.push(0x7fff_ffff, 31);
    assert_eq!(acc.len(), 31);
    assert_eq!(acc.pop(8), 0xff);
    assert_eq!(acc.pop(23), 0x7f_ffff);
    acc.push(0, 20);
    acc.push(0x2aa, 11);
    assert_eq!(acc.pop(20), 0);
    assert_eq!(acc.pop(11), 0x2aa);
}
