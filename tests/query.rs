use netcodec::message::{build_query, convert_domain_to_questions, parse_response};
use netcodec::query::{construct_dns_headerr, encode_header, DnsHeader, MessageType, Opcode, ResponseCode};
use netcodec::WireError;

#[test]
fn query_header_bytes() {
    let h = construct_dns_headerr(7, Opcode::Query, true, 1);
    assert_eq!(h, vec![0, 7, 0x01, 0, 0, 1, 0, 0, 0, 0, 0, 0]);
}

#[test]
fn query_header_round_trip_keeps_id_and_opcode() {
    for &tx_id in &[0u16, 7, 0x1234, 65535] {
        for &op in &[Opcode::Query, Opcode::Iquery, Opcode::Status, Opcode::Future] {
            let bytes = construct_dns_headerr(tx_id, op, false, 3);
            let h = DnsHeader::from_bytes(&bytes).unwrap();
            assert_eq!(h.tx_id, tx_id);
            assert_eq!(h.opcode, op);
            assert_eq!(h.msg_type, MessageType::Query);
            assert!(!h.recursion_desired);
            assert_eq!(h.question_count, 3);
            assert_eq!(h.answer_count, 0);
        }
    }
}

#[test]
fn full_header_round_trip() {
    let h = DnsHeader {
        tx_id: 0xBEEF,
        msg_type: MessageType::Response,
        opcode: Opcode::Status,
        authoritative: true,
        truncated: false,
        recursion_desired: true,
        recursion_available: true,
        response_code: ResponseCode::Refused,
        question_count: 1,
        answer_count: 2,
        authority_count: 3,
        additional_count: 0x0405,
    };
    let bytes = encode_header(&h);
    assert_eq!(bytes, vec![0xBE, 0xEF, 0x95, 0x85, 0, 1, 0, 2, 0, 3, 4, 5]);
    assert_eq!(DnsHeader::from_bytes(&bytes), Ok(h));
}

#[test]
fn decode_response_header() {
    let bytes = [0x00, 0x07, 0x81, 0x80, 0, 1, 0, 1, 0, 0, 0, 0];
    let h = DnsHeader::from_bytes(&bytes).unwrap();
    assert_eq!(h.tx_id, 7);
    assert_eq!(h.msg_type, MessageType::Response);
    assert_eq!(h.opcode, Opcode::Query);
    assert!(!h.authoritative);
    assert!(!h.truncated);
    assert!(h.recursion_desired);
    assert!(h.recursion_available);
    assert_eq!(h.response_code, ResponseCode::NoError);
    assert_eq!(h.question_count, 1);
    assert_eq!(h.answer_count, 1);
}

#[test]
fn response_code_seven_is_unrecognized() {
    let bytes = [0x00, 0x07, 0x81, 0x87, 0, 1, 0, 1, 0, 0, 0, 0];
    assert_eq!(DnsHeader::from_bytes(&bytes), Err(WireError::UnrecognizedField));
    let bytes = [0x00, 0x07, 0x81, 0x86, 0, 1, 0, 1, 0, 0, 0, 0];
    assert_eq!(DnsHeader::from_bytes(&bytes).unwrap().response_code, ResponseCode::Future);
}

#[test]
fn undefined_opcode_is_unrecognized() {
    let bytes = [0x00, 0x07, 0x28, 0x00, 0, 0, 0, 0, 0, 0, 0, 0];
    assert_eq!(DnsHeader::from_bytes(&bytes), Err(WireError::UnrecognizedField));
}

#[test]
fn short_header_is_truncated() {
    assert_eq!(DnsHeader::from_bytes(&[0u8; 11]), Err(WireError::Truncated));
    assert_eq!(DnsHeader::from_bytes(&[]), Err(WireError::Truncated));
}

#[test]
fn labels_of_example_com() {
    let v = convert_domain_to_questions("example.com").unwrap();
    let mut expected = vec![7u8];
    expected.extend_from_slice(b"example");
    expected.push(3);
    expected.extend_from_slice(b"com");
    assert_eq!(v, expected);
    assert_eq!(v.len(), 12);
}

#[test]
fn labels_edge_cases() {
    assert_eq!(convert_domain_to_questions(""), Ok(vec![0]));
    assert_eq!(convert_domain_to_questions("a."), Ok(vec![1, b'a', 0]));
    assert_eq!(convert_domain_to_questions(".."), Ok(vec![0, 0, 0]));
}

#[test]
fn label_of_255_bytes_is_accepted_and_256_rejected() {
    let ok = "x".repeat(255);
    let v = convert_domain_to_questions(&ok).unwrap();
    assert_eq!(v.len(), 256);
    assert_eq!(v[0], 255);
    let long = format!("a.{}.b", "y".repeat(256));
    assert_eq!(convert_domain_to_questions(&long), Err(WireError::FieldOverflow));
}

#[test]
fn whole_query_message() {
    let m = build_query(7, "example.com", 1).unwrap();
    let mut expected = vec![0u8, 7, 1, 0, 0, 1, 0, 0, 0, 0, 0, 0];
    expected.push(7);
    expected.extend_from_slice(b"example");
    expected.push(3);
    expected.extend_from_slice(b"com");
    expected.extend_from_slice(&[0, 0, 1, 0, 1]);
    assert_eq!(m, expected);
    let m = build_query(1, "a", 0x1C).unwrap();
    assert_eq!(&m[12..], &[1, b'a', 0, 0, 0x1C, 0, 1]);
    assert_eq!(build_query(1, &"z".repeat(300), 1), Err(WireError::FieldOverflow));
}

#[test]
fn response_with_one_address() {
    let mut buf = vec![0x00, 0x07, 0x81, 0x80, 0, 1, 0, 1, 0, 0, 0, 0];
    buf.extend_from_slice(&[1, b'a', 0, 0, 1, 0, 1]);
    buf.extend_from_slice(&[0xC0, 0x0C, 0, 1, 0, 1, 0, 0, 0, 60, 0, 4]);
    buf.extend_from_slice(&[93, 184, 216, 34]);
    let r = parse_response(&buf).unwrap();
    assert_eq!(r.header.tx_id, 7);
    assert_eq!(r.header.answer_count, 1);
    assert_eq!(r.address, [93, 184, 216, 34]);
}

#[test]
fn short_or_bad_response() {
    assert_eq!(parse_response(&[0u8; 15]), Err(WireError::Truncated));
    let mut buf = vec![0x00, 0x07, 0x81, 0x8F, 0, 1, 0, 1, 0, 0, 0, 0];
    buf.extend_from_slice(&[1, 2, 3, 4]);
    assert_eq!(parse_response(&buf), Err(WireError::UnrecognizedField));
}
