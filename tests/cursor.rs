use netcodec::cursor::{BitCursor, BitWriter, ByteOrder};
use netcodec::WireError;

#[test]
fn read_bytes_advances_and_keeps_buffer() {
    let mut c = BitCursor::new(vec![1, 2, 3, 4, 5]);
    assert_eq!(c.read_bytes(2), Ok(vec![1, 2]));
    assert_eq!(c.byte_offset(), 2);
    assert_eq!(c.read_bytes(3), Ok(vec![3, 4, 5]));
    assert!(c.is_at_end());
}

#[test]
fn read_bytes_past_end_is_truncated_and_does_not_move() {
    let mut c = BitCursor::new(vec![1, 2, 3]);
    assert_eq!(c.read_bytes(1), Ok(vec![1]));
    assert_eq!(c.read_bytes(3), Err(WireError::Truncated));
    assert_eq!(c.byte_offset(), 1);
    assert_eq!(c.remaining_bytes(), 2);
}

#[test]
fn read_bits_big_endian() {
    let mut c = BitCursor::new(vec![0x34, 0x12]);
    assert_eq!(c.read_bits(16, ByteOrder::Big), Ok(0x3412));
    let mut c = BitCursor::new(vec![0b1010_0000]);
    assert_eq!(c.read_bits(3, ByteOrder::Big), Ok(0b101));
    assert!(!c.is_aligned());
    assert_eq!(c.read_bits(5, ByteOrder::Big), Ok(0));
    assert!(c.is_at_end());
}

#[test]
fn read_bits_little_endian() {
    let mut c = BitCursor::new(vec![0x34, 0x12]);
    assert_eq!(c.read_bits(16, ByteOrder::Little), Ok(0x1234));
    let mut c = BitCursor::new(vec![0b0000_0110]);
    assert_eq!(c.read_bits(3, ByteOrder::Little), Ok(0b110));
    let mut c = BitCursor::new(vec![0b0000_0110]);
    assert_eq!(c.read_bits(1, ByteOrder::Little), Ok(0));
    assert_eq!(c.read_bits(2, ByteOrder::Little), Ok(3));
}

#[test]
fn read_bits_crossing_bytes() {
    let mut c = BitCursor::new(vec![0x0F, 0xF0]);
    assert_eq!(c.read_bits(4, ByteOrder::Big), Ok(0));
    assert_eq!(c.read_bits(8, ByteOrder::Big), Ok(0xFF));
    assert_eq!(c.read_bits(4, ByteOrder::Big), Ok(0));
}

#[test]
fn read_bits_full_width() {
    let mut c = BitCursor::new(vec![0xFF; 16]);
    assert_eq!(c.read_bits(128, ByteOrder::Big), Ok(u128::MAX));
    let mut bytes = vec![0u8; 16];
    bytes[0] = 1;
    let mut c = BitCursor::new(bytes);
    assert_eq!(c.read_bits(128, ByteOrder::Little), Ok(1));
}

#[test]
fn read_bits_past_end_is_truncated() {
    let mut c = BitCursor::new(vec![0xAB]);
    assert_eq!(c.read_bits(4, ByteOrder::Big), Ok(0xA));
    assert_eq!(c.read_bits(5, ByteOrder::Big), Err(WireError::Truncated));
    assert_eq!(c.read_bits(4, ByteOrder::Big), Ok(0xB));
    let mut empty = BitCursor::new(Vec::new());
    assert_eq!(empty.read_bits(1, ByteOrder::Little), Err(WireError::Truncated));
}

#[test]
fn seek_byte_moves_back() {
    let mut c = BitCursor::new(vec![9, 8, 7]);
    assert_eq!(c.read_bytes(3), Ok(vec![9, 8, 7]));
    c.seek_byte(1);
    assert_eq!(c.read_bytes(1), Ok(vec![8]));
}

#[test]
fn writer_packs_fields_msb_first() {
    let mut w = BitWriter::new();
    assert_eq!(w.write_bits(0b101, 3), Ok(()));
    assert_eq!(w.write_bits(0b1, 1), Ok(()));
    assert_eq!(w.write_bits(0xABC, 12), Ok(()));
    assert_eq!(w.into_bytes(), vec![0b1011_1010, 0xBC]);
}

#[test]
fn writer_pads_last_byte_with_zeros() {
    let mut w = BitWriter::new();
    assert_eq!(w.write_bits(0b11, 2), Ok(()));
    assert_eq!(w.into_bytes(), vec![0b1100_0000]);
    assert_eq!(BitWriter::new().into_bytes(), Vec::<u8>::new());
}

#[test]
fn writer_rejects_values_that_do_not_fit() {
    let mut w = BitWriter::new();
    assert_eq!(w.write_bits(8, 3), Err(WireError::FieldOverflow));
    assert_eq!(w.write_bits(1, 129), Err(WireError::FieldOverflow));
    assert_eq!(w.write_bits(u128::MAX, 128), Ok(()));
    assert_eq!(w.into_bytes(), vec![0xFF; 16]);
}

#[test]
fn writer_bytes_after_bits() {
    let mut w = BitWriter::new();
    assert_eq!(w.write_bits(1, 4), Ok(()));
    w.write_bytes(&[0xAB, 0xCD]);
    assert_eq!(w.into_bytes(), vec![0x1A, 0xBC, 0xD0]);
}

#[test]
fn written_bits_read_back() {
    let mut w = BitWriter::new();
    assert_eq!(w.write_bits(0x2D, 7), Ok(()));
    assert_eq!(w.write_bits(0x1234, 16), Ok(()));
    let mut c = BitCursor::new(w.into_bytes());
    assert_eq!(c.read_bits(7, ByteOrder::Big), Ok(0x2D));
    assert_eq!(c.read_bits(16, ByteOrder::Big), Ok(0x1234));
}
