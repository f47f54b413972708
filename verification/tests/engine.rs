use bitfield::engine::{BitBuffer, OverflowError};
use bitfield::parse::BitParse;

#[test]
fn full_byte_at_offset_zero() {
    let mut b = BitBuffer::new(1);
    b.write(0, 8, 0xFF).unwrap();
    assert_eq!(b.as_bytes()[0], 0xFF);
    assert_eq!(b.read(0, 8), 255);
}

#[test]
fn multi_byte_span() {
    let mut b = BitBuffer::new(2);
    b.write(4, 9, 0x1FF).unwrap();
    assert_eq!(b.read(4, 9), 0x1FF);
    // Bits [0, 4) of byte 0 and bit 15 of byte 1 stay clear.
    assert_eq!(b.as_bytes()[0], 0x0F);
    assert_eq!(b.as_bytes()[1], 0xF8);
}

#[test]
fn adjacent_fields_pack_msb_first() {
    // Widths 3, 4, 1 from offset 0: 101 1001 1 == 0b10110011.
    let mut b = BitBuffer::new(1);
    b.write(0, 3, 5).unwrap();
    b.write(3, 4, 9).unwrap();
    b.write(7, 1, 1).unwrap();
    assert_eq!(b.as_bytes()[0], 0b1011_0011);
    assert_eq!(b.read(0, 3), 5);
    assert_eq!(b.read(3, 4), 9);
    assert_eq!(b.read(7, 1), 1);
}

#[test]
fn adjacent_fields_stay_independent() {
    let mut b = BitBuffer::new(1);
    b.write(0, 3, 5).unwrap();
    b.write(3, 4, 9).unwrap();
    b.write(7, 1, 1).unwrap();
    // Rewriting the middle field leaves its neighbours alone.
    b.write(3, 4, 0).unwrap();
    assert_eq!(b.as_bytes()[0], 0b1010_0001);
    assert_eq!(b.read(0, 3), 5);
    assert_eq!(b.read(3, 4), 0);
    assert_eq!(b.read(7, 1), 1);
}

#[test]
fn write_keeps_bits_outside_the_field() {
    let mut b = BitBuffer::new(3);
    b.write(0, 24, 0xAAAAAA).unwrap();
    b.write(10, 5, 0b01010).unwrap();
    assert_eq!(b.as_bytes()[0], 0xAA);
    assert_eq!(b.as_bytes()[1], 0b1001_0100);
    assert_eq!(b.as_bytes()[2], 0xAA);
    assert_eq!(b.read(10, 5), 0b01010);
}

#[test]
fn round_trips_at_odd_offsets() {
    let mut b = BitBuffer::new(5);
    let cases: Vec<(usize, usize, u64)> = vec![
        (0, 1, 1),
        (5, 17, 109517),
        (7, 3, 6),
        (13, 11, 2047),
        (1, 33, 4_294_967_296),
    ];
    for (offset, width, value) in cases {
        b.write(offset, width, value).unwrap();
        assert_eq!(b.read(offset, width), value);
    }
}

#[test]
fn full_width_64_takes_every_bit() {
    let mut b = BitBuffer::new(8);
    b.write(0, 64, u64::MAX).unwrap();
    assert_eq!(b.read(0, 64), u64::MAX);
    for i in 0..8 {
        assert_eq!(b.as_bytes()[i], 0xFF);
    }
}

#[test]
fn width_64_at_unaligned_offset_round_trips() {
    let mut b = BitBuffer::new(9);
    b.write(3, 64, u64::MAX).unwrap();
    assert_eq!(b.read(3, 64), u64::MAX);
    // The three bits before the field and the five after it stay clear.
    assert_eq!(b.as_bytes()[0], 0b0001_1111);
    assert_eq!(b.as_bytes()[8], 0b1110_0000);
    b.write(3, 64, 0x0123_4567_89AB_CDEF).unwrap();
    assert_eq!(b.read(3, 64), 0x0123_4567_89AB_CDEF);
}

#[test]
fn overflow_is_rejected_at_the_boundary() {
    let mut b = BitBuffer::new(1);
    // 15 is the largest value of a 4-bit field; 16 must be refused.
    b.write(0, 4, 15).unwrap();
    let err = b.write(0, 4, 16).unwrap_err();
    assert_eq!(err, OverflowError { value_bits: 5, allowed_bits: 4 });
}

#[test]
fn failed_write_leaves_the_buffer_unchanged() {
    let mut b = BitBuffer::new(2);
    b.write(0, 16, 0xBEEF).unwrap();
    assert!(b.write(3, 5, 32).is_err());
    assert_eq!(b.as_bytes()[0], 0xBE);
    assert_eq!(b.as_bytes()[1], 0xEF);
}

#[test]
fn zero_fits_any_width() {
    let mut b = BitBuffer::new(1);
    b.write(2, 1, 0).unwrap();
    assert_eq!(b.read(2, 1), 0);
    assert_eq!(b.as_bytes()[0], 0);
}

#[test]
fn new_buffer_is_zeroed() {
    let b = BitBuffer::new(4);
    assert_eq!(b.len(), 4);
    for i in 0..4 {
        assert_eq!(b.as_bytes()[i], 0);
    }
    assert_eq!(b.read(0, 32), 0);
}

#[test]
fn bit_parse_accessors_drive_the_engine() {
    let mut b = BitBuffer::new(2);
    b.set_bits_value(3, 7, 0x55).unwrap();
    assert_eq!(b.get_bits_value(3, 7), 0x55);
    assert_eq!(b.get_data().len(), 2);
    let err = b.set_bits_value(3, 7, 0x80).unwrap_err();
    assert_eq!(err, OverflowError { value_bits: 8, allowed_bits: 7 });
    assert_eq!(b.get_bits_value(3, 7), 0x55);
    b.get_mut_data()[0] = 0;
    assert_eq!(b.get_bits_value(0, 8), 0);
}

#[test]
fn min_width_matches_leading_zero_count() {
    assert_eq!(bitfield::engine::min_width_u64(0), 0);
    assert_eq!(bitfield::engine::min_width_u64(1), 1);
    assert_eq!(bitfield::engine::min_width_u64(2), 2);
    assert_eq!(bitfield::engine::min_width_u64(255), 8);
    assert_eq!(bitfield::engine::min_width_u64(256), 9);
    assert_eq!(bitfield::engine::min_width_u64(u64::MAX), 64);
    for value in 0u64..=1024 {
        assert_eq!(bitfield::engine::min_width_u64(value), (64 - value.leading_zeros()) as usize);
    }
}
