use netcodec::capture::{decode_all, decode_capture_header, decode_record};
use netcodec::cursor::BitCursor;
use netcodec::WireError;

fn global_header() -> Vec<u8> {
    vec![
        0xd4, 0xc3, 0xb2, 0xa1, 2, 0, 4, 0, 0, 0, 0, 0, 0, 0, 0, 0, 0xff, 0xff, 0, 0, 1, 0, 0, 0,
    ]
}

fn record(captured: u32, original: u32, frame_len: usize, seed: u8) -> Vec<u8> {
    let mut r = vec![0x10, 0, 0, 0, 0x20, 0, 0, 0];
    r.extend_from_slice(&captured.to_le_bytes());
    r.extend_from_slice(&original.to_le_bytes());
    for i in 0..frame_len {
        r.push(seed.wrapping_add(i as u8));
    }
    r
}

#[test]
fn one_record_capture() {
    let mut buf = global_header();
    buf.extend(record(60, 60, 60, 0));
    let mut c = BitCursor::new(buf);
    let h = decode_capture_header(&mut c).unwrap();
    assert_eq!(h.magic, [0xd4, 0xc3, 0xb2, 0xa1]);
    assert_eq!(h.major_version, [2, 0]);
    assert_eq!(h.minor_version, [4, 0]);
    assert_eq!(h.snapshot_length, [0xff, 0xff, 0, 0]);
    assert_eq!(h.link_type, [1, 0, 0, 0]);
    let scan = decode_all(&mut c);
    assert_eq!(scan.error, None);
    assert_eq!(scan.records.len(), 1);
    let rec = &scan.records[0];
    assert_eq!(rec.index, 0);
    assert_eq!(rec.header.captured_length, 60);
    assert_eq!(rec.header.original_length, 60);
    assert_eq!(rec.header.ts_seconds, 0x10);
    assert_eq!(rec.header.ts_micros, 0x20);
    assert_eq!(rec.frame.destination, [0, 1, 2, 3, 4, 5]);
    assert_eq!(rec.frame.source, [6, 7, 8, 9, 10, 11]);
    assert_eq!(rec.frame.ether_type, [12, 13]);
    assert_eq!(rec.frame.payload.len(), 42);
    assert_eq!(rec.frame.payload[0], 14);
    assert_eq!(rec.frame.frame_check, [56, 57, 58, 59]);
    assert!(c.is_at_end());
}

#[test]
fn short_global_header_is_truncated() {
    let mut c = BitCursor::new(vec![0u8; 23]);
    assert!(matches!(decode_capture_header(&mut c), Err(WireError::Truncated)));
    assert_eq!(c.byte_offset(), 0);
}

#[test]
fn record_shorter_than_its_header_is_truncated() {
    let full = record(20, 20, 20, 0);
    for n in 0..16 {
        let mut c = BitCursor::new(full[..n].to_vec());
        assert!(matches!(decode_record(&mut c), Err(WireError::Truncated)));
        assert_eq!(c.byte_offset(), 0);
    }
}

#[test]
fn record_shorter_than_its_frame_is_truncated() {
    let full = record(20, 20, 20, 0);
    for n in 16..36 {
        let mut c = BitCursor::new(full[..n].to_vec());
        assert!(matches!(decode_record(&mut c), Err(WireError::Truncated)));
        assert_eq!(c.byte_offset(), 0);
    }
    let mut c = BitCursor::new(full);
    assert!(decode_record(&mut c).is_ok());
    assert!(c.is_at_end());
}

#[test]
fn frame_shorter_than_envelope_is_truncated() {
    let mut c = BitCursor::new(record(17, 17, 17, 0));
    assert!(matches!(decode_record(&mut c), Err(WireError::Truncated)));
}

#[test]
fn lengths_that_disagree_stop_the_scan() {
    let mut buf = record(20, 20, 20, 0);
    buf.extend(record(20, 21, 20, 0));
    buf.extend(record(20, 20, 20, 0));
    let mut c = BitCursor::new(buf);
    let scan = decode_all(&mut c);
    assert_eq!(scan.records.len(), 1);
    assert_eq!(scan.error, Some(WireError::LengthMismatch));
    assert_eq!(c.byte_offset(), 36);
    for r in &scan.records {
        assert_eq!(r.header.captured_length, r.header.original_length);
    }
}

#[test]
fn several_records_are_numbered() {
    let mut buf = record(18, 18, 18, 0);
    buf.extend(record(25, 25, 25, 100));
    buf.extend(record(30, 30, 30, 200));
    let mut c = BitCursor::new(buf);
    let scan = decode_all(&mut c);
    assert_eq!(scan.error, None);
    let idx: Vec<usize> = scan.records.iter().map(|r| r.index).collect();
    assert_eq!(idx, vec![0, 1, 2]);
    assert_eq!(scan.records[0].frame.payload.len(), 0);
    assert_eq!(scan.records[1].frame.payload.len(), 7);
    assert_eq!(scan.records[1].frame.destination[0], 100);
    assert_eq!(scan.records[2].frame.payload.len(), 12);
    assert!(c.is_at_end());
}

#[test]
fn truncated_last_record_keeps_earlier_ones() {
    let mut buf = record(20, 20, 20, 0);
    buf.extend(record(40, 40, 10, 0));
    let mut c = BitCursor::new(buf);
    let scan = decode_all(&mut c);
    assert_eq!(scan.records.len(), 1);
    assert_eq!(scan.error, Some(WireError::Truncated));
    assert_eq!(c.byte_offset(), 36);
}

#[test]
fn empty_scan() {
    let mut c = BitCursor::new(Vec::new());
    let scan = decode_all(&mut c);
    assert!(scan.records.is_empty());
    assert_eq!(scan.error, None);
}

#[test]
fn addresses_in_canonical_text() {
    let mut frame = vec![0x00, 0x1a, 0x2b, 0x3c, 0x4d, 0x5e, 0xff, 0xee, 0x0d, 0x0c, 0x0b, 0x0a];
    frame.extend_from_slice(&[8, 0, 1, 2, 3, 4]);
    let mut buf = vec![0, 0, 0, 0, 0, 0, 0, 0, 18, 0, 0, 0, 18, 0, 0, 0];
    buf.extend(frame);
    let mut c = BitCursor::new(buf);
    let (_, f) = decode_record(&mut c).unwrap();
    assert_eq!(f.destination_text(), "00-1a-2b-3c-4d-5e");
    assert_eq!(f.source_text(), "ff-ee-0d-0c-0b-0a");
}
