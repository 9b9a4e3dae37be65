use netcodec::blob::build_blob;
use netcodec::WireError;

#[test]
fn blob_layout() {
    let b = build_blob(0, true, b"hi", 30, 3661).unwrap();
    assert_eq!(b, vec![0x81, 2, b'h', b'i', 30, 0x4D, 0x0E, 0, 0, 0, 0, 0, 0]);
}

#[test]
fn blob_weekday_bits() {
    let b = build_blob(6, false, b"", 0, 0).unwrap();
    assert_eq!(b[0], 0x40);
    assert_eq!(b.len(), 11);
    let b = build_blob(3, true, b"x", 59, 86399).unwrap();
    assert_eq!(b[0], 0x88);
    assert_eq!(&b[4..], &[0x7F, 0x51, 0x01, 0, 0, 0, 0, 0]);
}

#[test]
fn blob_payload_limit() {
    let ok = vec![b'a'; 255];
    assert_eq!(build_blob(1, false, &ok, 0, 0).unwrap()[1], 255);
    let long = vec![b'a'; 256];
    assert_eq!(build_blob(1, false, &long, 0, 0), Err(WireError::FieldOverflow));
}

#[test]
fn blob_negative_day_seconds_in_twos_complement() {
    let b = build_blob(0, false, b"", 0, -1).unwrap();
    assert_eq!(&b[3..], &[0xFF; 8]);
}
