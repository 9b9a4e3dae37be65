//! The fixed twelve-byte header of a name-resolution message: its fields,
//! their bit layout, and decoding and encoding over the bit cursor.
//!
//! Header layout, most significant bit first (bit offsets):
//! transaction id 0..16, message type 16, opcode 17..21, authoritative 21,
//! truncated 22, recursion desired 23, recursion available 24, reserved
//! 25..28 (zero), response code 28..32, then the question, answer,
//! authority and additional counts, sixteen bits each, from bit 32.

use crate::bits::{lemma_msb_value_bound, lemma_msb_value_of_value_bits, msb_bits, msb_value, value_bits};
use crate::cursor::{BitCursor, BitWriter, ByteOrder, field};
use crate::WireError;
use vstd::arithmetic::power2::{lemma2_to64, pow2};
use vstd::prelude::*;

verus! {

/// Length of the header in bytes.
pub const HEADER_LEN: usize = 12;

/// The byte that separates the labels of a domain name.
pub const LABEL_SEPARATOR: u8 = 46;

#[derive(Debug, Clone, Copy, PartialEq, Eq, Structural)]
pub enum MessageType {
    Query,
    Response,
}

#[derive(Debug, Clone, Copy, PartialEq, Eq, Structural)]
pub enum Opcode {
    Query,
    Iquery,
    Status,
    Future,
}

#[derive(Debug, Clone, Copy, PartialEq, Eq, Structural)]
pub enum ResponseCode {
    NoError,
    FormatError,
    ServerFailure,
    NameError,
    NotImplemented,
    Refused,
    Future,
}

/// The fields of a message header.
#[derive(Debug, Clone, Copy, PartialEq, Eq, Structural)]
pub struct DnsHeader {
    pub tx_id: u16,
    pub msg_type: MessageType,
    pub opcode: Opcode,
    pub authoritative: bool,
    pub truncated: bool,
    pub recursion_desired: bool,
    pub recursion_available: bool,
    pub response_code: ResponseCode,
    pub question_count: u16,
    pub answer_count: u16,
    pub authority_count: u16,
    pub additional_count: u16,
}

pub open spec fn msg_type_value(t: MessageType) -> nat {
    match t {
        MessageType::Query => 0,
        MessageType::Response => 1,
    }
}

pub open spec fn opcode_value(o: Opcode) -> nat {
    match o {
        Opcode::Query => 0,
        Opcode::Iquery => 1,
        Opcode::Status => 2,
        Opcode::Future => 3,
    }
}

pub open spec fn response_code_value(c: ResponseCode) -> nat {
    match c {
        ResponseCode::NoError => 0,
        ResponseCode::FormatError => 1,
        ResponseCode::ServerFailure => 2,
        ResponseCode::NameError => 3,
        ResponseCode::NotImplemented => 4,
        ResponseCode::Refused => 5,
        ResponseCode::Future => 6,
    }
}

/// The opcode with the value `v`, if it is one of those defined.
pub open spec fn opcode_of(v: nat) -> Option<Opcode> {
    if v == 0 {
        Some(Opcode::Query)
    } else if v == 1 {
        Some(Opcode::Iquery)
    } else if v == 2 {
        Some(Opcode::Status)
    } else if v == 3 {
        Some(Opcode::Future)
    } else {
        None
    }
}

/// The response code with the value `v`, if it is one of those defined.
pub open spec fn response_code_of(v: nat) -> Option<ResponseCode> {
    if v == 0 {
        Some(ResponseCode::NoError)
    } else if v == 1 {
        Some(ResponseCode::FormatError)
    } else if v == 2 {
        Some(ResponseCode::ServerFailure)
    } else if v == 3 {
        Some(ResponseCode::NameError)
    } else if v == 4 {
        Some(ResponseCode::NotImplemented)
    } else if v == 5 {
        Some(ResponseCode::Refused)
    } else if v == 6 {
        Some(ResponseCode::Future)
    } else {
        None
    }
}

/// The header field of `width` bits at bit offset `pos`.
pub open spec fn hfield(b: Seq<u8>, pos: int, width: int) -> nat {
    field(b, pos, width, ByteOrder::Big)
}

/// What decoding the header at the start of `b` gives.
pub open spec fn decoded_header(b: Seq<u8>) -> Result<DnsHeader, WireError> {
    if b.len() < HEADER_LEN {
        Err(WireError::Truncated)
    } else {
        match (opcode_of(hfield(b, 17, 4)), response_code_of(hfield(b, 28, 4))) {
            (Some(op), Some(rc)) => Ok(
                DnsHeader {
                    tx_id: hfield(b, 0, 16) as u16,
                    msg_type: if hfield(b, 16, 1) == 1 {
                        MessageType::Response
                    } else {
                        MessageType::Query
                    },
                    opcode: op,
                    authoritative: hfield(b, 21, 1) == 1,
                    truncated: hfield(b, 22, 1) == 1,
                    recursion_desired: hfield(b, 23, 1) == 1,
                    recursion_available: hfield(b, 24, 1) == 1,
                    response_code: rc,
                    question_count: hfield(b, 32, 16) as u16,
                    answer_count: hfield(b, 48, 16) as u16,
                    authority_count: hfield(b, 64, 16) as u16,
                    additional_count: hfield(b, 80, 16) as u16,
                },
            ),
            _ => Err(WireError::UnrecognizedField),
        }
    }
}

pub open spec fn flag_bit(b: bool) -> Seq<bool> {
    seq![b]
}

/// The 96 bits of the header `h`, reserved bits zero.
pub open spec fn header_bits(h: DnsHeader) -> Seq<bool> {
    value_bits(h.tx_id as nat, 16) + value_bits(msg_type_value(h.msg_type), 1) + value_bits(
        opcode_value(h.opcode),
        4,
    ) + flag_bit(h.authoritative) + flag_bit(h.truncated) + flag_bit(h.recursion_desired)
        + flag_bit(h.recursion_available) + value_bits(0, 3) + value_bits(
        response_code_value(h.response_code),
        4,
    ) + value_bits(h.question_count as nat, 16) + value_bits(h.answer_count as nat, 16)
        + value_bits(h.authority_count as nat, 16) + value_bits(h.additional_count as nat, 16)
}

/// The header of an outgoing query: message type Query, the flags other than
/// recursion desired clear, and no counts but the question count.
pub open spec fn query_header(tx_id: u16, opcode: Opcode, recursion_desired: bool, question_count: u16) -> DnsHeader {
    DnsHeader {
        tx_id,
        msg_type: MessageType::Query,
        opcode,
        authoritative: false,
        truncated: false,
        recursion_desired,
        recursion_available: false,
        response_code: ResponseCode::NoError,
        question_count,
        answer_count: 0,
        authority_count: 0,
        additional_count: 0,
    }
}

fn opcode_from_value(v: u128) -> (r: Option<Opcode>)
    ensures
        r == opcode_of(v as nat),
{
    if v == 0 {
        Some(Opcode::Query)
    } else if v == 1 {
        Some(Opcode::Iquery)
    } else if v == 2 {
        Some(Opcode::Status)
    } else if v == 3 {
        Some(Opcode::Future)
    } else {
        None
    }
}

fn response_code_from_value(v: u128) -> (r: Option<ResponseCode>)
    ensures
        r == response_code_of(v as nat),
{
    if v == 0 {
        Some(ResponseCode::NoError)
    } else if v == 1 {
        Some(ResponseCode::FormatError)
    } else if v == 2 {
        Some(ResponseCode::ServerFailure)
    } else if v == 3 {
        Some(ResponseCode::NameError)
    } else if v == 4 {
        Some(ResponseCode::NotImplemented)
    } else if v == 5 {
        Some(ResponseCode::Refused)
    } else if v == 6 {
        Some(ResponseCode::Future)
    } else {
        None
    }
}

/// Reads a big-endian field that is known to lie inside the buffer.
fn take_field(c: &mut BitCursor, width: u8) -> (r: u128)
    requires
        old(c).wf(),
        1 <= width <= 128,
        width <= old(c).remaining(),
    ensures
        final(c).wf(),
        final(c).bytes() == old(c).bytes(),
        final(c).pos() == old(c).pos() + width,
        r == hfield(old(c).bytes(), old(c).pos(), width as int),
        r < pow2(width as nat),
{
    proof {
        old(c).lemma_wf();
        let s = msb_bits(old(c).bytes()).subrange(old(c).pos(), old(c).pos() + width);
        lemma_msb_value_bound(s);
    }
    match c.read_bits(width, ByteOrder::Big) {
        Ok(v) => v,
        Err(_) => 0,
    }
}

fn copy_bytes(b: &[u8]) -> (r: Vec<u8>)
    ensures
        r@ == b@,
{
    let mut v: Vec<u8> = Vec::with_capacity(b.len());
    let mut i: usize = 0;
    while i < b.len()
        invariant
            i <= b@.len(),
            v@ == b@.subrange(0, i as int),
        decreases b@.len() - i,
    {
        v.push(b[i]);
        i = i + 1;
        assert(v@ =~= b@.subrange(0, i as int));
    }
    assert(v@ =~= b@);
    v
}

impl DnsHeader {
    /// Decodes the header at the start of `bytes`. Fails with `Truncated` when
    /// fewer than twelve bytes are given, and with `UnrecognizedField` when the
    /// opcode or the response code is not one of the defined values.
    pub fn from_bytes(bytes: &[u8]) -> (r: Result<DnsHeader, WireError>)
        ensures
            r == decoded_header(bytes@),
    {
        if bytes.len() < HEADER_LEN {
            return Err(WireError::Truncated);
        }
        let mut c = BitCursor::new(copy_bytes(bytes));
        proof {
            lemma2_to64();
        }
        let tx_id = take_field(&mut c, 16);
        let msg_type = take_field(&mut c, 1);
        let opcode = take_field(&mut c, 4);
        let authoritative = take_field(&mut c, 1);
        let truncated = take_field(&mut c, 1);
        let recursion_desired = take_field(&mut c, 1);
        let recursion_available = take_field(&mut c, 1);
        let _reserved = take_field(&mut c, 3);
        let response_code = take_field(&mut c, 4);
        let question_count = take_field(&mut c, 16);
        let answer_count = take_field(&mut c, 16);
        let authority_count = take_field(&mut c, 16);
        let additional_count = take_field(&mut c, 16);
        let opcode = match opcode_from_value(opcode) {
            Some(o) => o,
            None => return Err(WireError::UnrecognizedField),
        };
        let response_code = match response_code_from_value(response_code) {
            Some(rc) => rc,
            None => return Err(WireError::UnrecognizedField),
        };
        Ok(
            DnsHeader {
                tx_id: tx_id as u16,
                msg_type: if msg_type == 1 {
                    MessageType::Response
                } else {
                    MessageType::Query
                },
                opcode,
                authoritative: authoritative == 1,
                truncated: truncated == 1,
                recursion_desired: recursion_desired == 1,
                recursion_available: recursion_available == 1,
                response_code,
                question_count: question_count as u16,
                answer_count: answer_count as u16,
                authority_count: authority_count as u16,
                additional_count: additional_count as u16,
            },
        )
    }
}

fn msg_type_number(t: MessageType) -> (r: u128)
    ensures
        r == msg_type_value(t),
{
    match t {
        MessageType::Query => 0,
        MessageType::Response => 1,
    }
}

fn opcode_number(o: Opcode) -> (r: u128)
    ensures
        r == opcode_value(o),
{
    match o {
        Opcode::Query => 0,
        Opcode::Iquery => 1,
        Opcode::Status => 2,
        Opcode::Future => 3,
    }
}

fn response_code_number(c: ResponseCode) -> (r: u128)
    ensures
        r == response_code_value(c),
{
    match c {
        ResponseCode::NoError => 0,
        ResponseCode::FormatError => 1,
        ResponseCode::ServerFailure => 2,
        ResponseCode::NameError => 3,
        ResponseCode::NotImplemented => 4,
        ResponseCode::Refused => 5,
        ResponseCode::Future => 6,
    }
}

/// Appends a field whose value is known to fit.
fn put_field(w: &mut BitWriter, value: u128, width: u8)
    requires
        old(w).wf(),
        1 <= width <= 128,
        value < pow2(width as nat),
    ensures
        final(w).wf(),
        final(w).bits() == old(w).bits() + value_bits(value as nat, width as nat),
{
    let _ = w.write_bits(value, width);
}

/// Encodes `h` as the twelve header bytes, reserved bits zero.
pub fn encode_header(h: &DnsHeader) -> (r: Vec<u8>)
    ensures
        r@.len() == HEADER_LEN,
        msb_bits(r@) == header_bits(*h),
{
    proof {
        lemma2_to64();
    }
    let mut w = BitWriter::new();
    put_field(&mut w, h.tx_id as u128, 16);
    put_field(&mut w, msg_type_number(h.msg_type), 1);
    put_field(&mut w, opcode_number(h.opcode), 4);
    put_field(&mut w, if h.authoritative { 1 } else { 0 }, 1);
    put_field(&mut w, if h.truncated { 1 } else { 0 }, 1);
    put_field(&mut w, if h.recursion_desired { 1 } else { 0 }, 1);
    put_field(&mut w, if h.recursion_available { 1 } else { 0 }, 1);
    put_field(&mut w, 0, 3);
    put_field(&mut w, response_code_number(h.response_code), 4);
    put_field(&mut w, h.question_count as u128, 16);
    put_field(&mut w, h.answer_count as u128, 16);
    put_field(&mut w, h.authority_count as u128, 16);
    put_field(&mut w, h.additional_count as u128, 16);
    proof {
        lemma_flag_bits(h.authoritative);
        lemma_flag_bits(h.truncated);
        lemma_flag_bits(h.recursion_desired);
        lemma_flag_bits(h.recursion_available);
        assert(w.bits() =~= header_bits(*h));
    }
    w.into_bytes()
}

proof fn lemma_flag_bits(b: bool)
    ensures
        value_bits(if b { 1nat } else { 0nat }, 1) =~= flag_bit(b),
{
    lemma2_to64();
    assert(1nat / 1 == 1);
    assert(0nat / 1 == 0);
}

/// Builds the header of an outgoing query (see `query_header`).
pub fn construct_dns_headerr(tx_id: u16, opcode: Opcode, recursion_desired: bool, question_count: u16) -> (r: Vec<u8>)
    ensures
        r@.len() == HEADER_LEN,
        msb_bits(r@) == header_bits(query_header(tx_id, opcode, recursion_desired, question_count)),
{
    let h = DnsHeader {
        tx_id,
        msg_type: MessageType::Query,
        opcode,
        authoritative: false,
        truncated: false,
        recursion_desired,
        recursion_available: false,
        response_code: ResponseCode::NoError,
        question_count,
        answer_count: 0,
        authority_count: 0,
        additional_count: 0,
    };
    encode_header(&h)
}

/// The field at `pos` of a header whose bits are `header_bits(h)`, where the
/// header's bits from `pos` are those of `v` in `width` bits.
proof fn lemma_field_reads_back(b: Seq<u8>, pos: int, width: nat, v: nat)
    requires
        0 <= pos,
        pos + width <= msb_bits(b).len(),
        v < pow2(width),
        msb_bits(b).subrange(pos, pos + width) =~= value_bits(v, width),
    ensures
        hfield(b, pos, width as int) == v,
{
    lemma_msb_value_of_value_bits(v, width);
}

/// Decoding the bytes of an encoded header gives the header back.
pub proof fn lemma_header_round_trip(h: DnsHeader, b: Seq<u8>)
    requires
        b.len() == HEADER_LEN,
        msb_bits(b) == header_bits(h),
    ensures
        decoded_header(b) == Ok::<DnsHeader, WireError>(h),
{
    lemma2_to64();
    let s = msb_bits(b);
    assert(s.len() == 96);
    lemma_field_reads_back(b, 0, 16, h.tx_id as nat);
    lemma_field_reads_back(b, 16, 1, msg_type_value(h.msg_type));
    lemma_field_reads_back(b, 17, 4, opcode_value(h.opcode));
    lemma_flag_bits(h.authoritative);
    lemma_flag_bits(h.truncated);
    lemma_flag_bits(h.recursion_desired);
    lemma_flag_bits(h.recursion_available);
    lemma_field_reads_back(b, 21, 1, if h.authoritative { 1nat } else { 0nat });
    lemma_field_reads_back(b, 22, 1, if h.truncated { 1nat } else { 0nat });
    lemma_field_reads_back(b, 23, 1, if h.recursion_desired { 1nat } else { 0nat });
    lemma_field_reads_back(b, 24, 1, if h.recursion_available { 1nat } else { 0nat });
    lemma_field_reads_back(b, 28, 4, response_code_value(h.response_code));
    lemma_field_reads_back(b, 32, 16, h.question_count as nat);
    lemma_field_reads_back(b, 48, 16, h.answer_count as nat);
    lemma_field_reads_back(b, 64, 16, h.authority_count as nat);
    lemma_field_reads_back(b, 80, 16, h.additional_count as nat);
}

/// Decoding an encoded query header recovers its transaction id and opcode,
/// and every other field of `query_header`.
pub proof fn lemma_query_round_trip(
    tx_id: u16,
    opcode: Opcode,
    recursion_desired: bool,
    question_count: u16,
    b: Seq<u8>,
)
    requires
        b.len() == HEADER_LEN,
        msb_bits(b) == header_bits(query_header(tx_id, opcode, recursion_desired, question_count)),
    ensures
        decoded_header(b) is Ok,
        decoded_header(b)->Ok_0.tx_id == tx_id,
        decoded_header(b)->Ok_0.opcode == opcode,
        decoded_header(b) == Ok::<DnsHeader, WireError>(
            query_header(tx_id, opcode, recursion_desired, question_count),
        ),
{
    lemma_header_round_trip(query_header(tx_id, opcode, recursion_desired, question_count), b);
}

/// A response code field holding a value past the defined ones makes the
/// header undecodable, whatever the other fields hold.
pub proof fn lemma_undefined_response_code(b: Seq<u8>)
    requires
        b.len() >= HEADER_LEN,
        hfield(b, 28, 4) > 6,
    ensures
        decoded_header(b) == Err::<DnsHeader, WireError>(WireError::UnrecognizedField),
{
}

} // verus!
