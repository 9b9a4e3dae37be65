//! The capture container: a 24-byte global header, then records, each a
//! 16-byte record header followed by one Ethernet II frame.

use crate::cursor::BitCursor;
use crate::mac::mac_canonical;
use crate::WireError;
use vstd::prelude::*;

verus! {

pub const GLOBAL_HEADER_LEN: usize = 24;

pub const RECORD_HEADER_LEN: usize = 16;

/// Destination and source addresses and the ether type.
pub const ENVELOPE_LEN: usize = 14;

pub const FRAME_CHECK_LEN: usize = 4;

/// The shortest frame: an envelope and a frame check, no payload.
pub const MIN_FRAME_LEN: usize = ENVELOPE_LEN + FRAME_CHECK_LEN;

/// The global header, its fields kept as the bytes that hold them.
#[derive(Debug, Clone, Copy)]
pub struct CaptureHeader {
    pub magic: [u8; 4],
    pub major_version: [u8; 2],
    pub minor_version: [u8; 2],
    pub timezone_offset: [u8; 4],
    pub timestamp_accuracy: [u8; 4],
    pub snapshot_length: [u8; 4],
    pub link_type: [u8; 4],
}

/// A record header; every field is a little-endian 32-bit number.
#[derive(Debug, Clone, Copy, PartialEq, Eq, Structural)]
pub struct RecordHeader {
    pub ts_seconds: u32,
    pub ts_micros: u32,
    pub captured_length: u32,
    pub original_length: u32,
}

/// An Ethernet II frame as captured; the frame check is kept, not validated.
#[derive(Debug, Clone)]
pub struct EthernetFrame {
    pub destination: [u8; 6],
    pub source: [u8; 6],
    pub ether_type: [u8; 2],
    pub payload: Vec<u8>,
    pub frame_check: [u8; 4],
}

/// A decoded record and its place in the capture, counting from zero.
#[derive(Debug, Clone)]
pub struct Record {
    pub index: usize,
    pub header: RecordHeader,
    pub frame: EthernetFrame,
}

/// The records read before the scan stopped, and why it stopped early, if it did.
#[derive(Debug, Clone)]
pub struct RecordScan {
    pub records: Vec<Record>,
    pub error: Option<WireError>,
}

/// The little-endian 32-bit number in `b[o..o + 4]`.
pub open spec fn le_u32(b: Seq<u8>, o: int) -> nat {
    b[o] as nat + 256 * b[o + 1] as nat + 65536 * b[o + 2] as nat + 16777216 * b[o + 3] as nat
}

pub open spec fn record_header_at(b: Seq<u8>, o: int) -> RecordHeader {
    RecordHeader {
        ts_seconds: le_u32(b, o) as u32,
        ts_micros: le_u32(b, o + 4) as u32,
        captured_length: le_u32(b, o + 8) as u32,
        original_length: le_u32(b, o + 12) as u32,
    }
}

pub open spec fn header_fields_at(h: CaptureHeader, b: Seq<u8>, o: int) -> bool {
    &&& h.magic@ == b.subrange(o, o + 4)
    &&& h.major_version@ == b.subrange(o + 4, o + 6)
    &&& h.minor_version@ == b.subrange(o + 6, o + 8)
    &&& h.timezone_offset@ == b.subrange(o + 8, o + 12)
    &&& h.timestamp_accuracy@ == b.subrange(o + 12, o + 16)
    &&& h.snapshot_length@ == b.subrange(o + 16, o + 20)
    &&& h.link_type@ == b.subrange(o + 20, o + 24)
}

/// `f` is the frame of `len` bytes at byte `o` of `b`.
pub open spec fn frame_at(f: EthernetFrame, b: Seq<u8>, o: int, len: int) -> bool {
    &&& f.destination@ == b.subrange(o, o + 6)
    &&& f.source@ == b.subrange(o + 6, o + 12)
    &&& f.ether_type@ == b.subrange(o + 12, o + 14)
    &&& f.payload@ == b.subrange(o + 14, o + len - 4)
    &&& f.frame_check@ == b.subrange(o + len - 4, o + len)
}

/// Why the record at byte `o` of `b` cannot be decoded, if it cannot: too few
/// bytes for its header, lengths that disagree, or too few bytes for its frame.
pub open spec fn record_error(b: Seq<u8>, o: int) -> Option<WireError> {
    if b.len() - o < RECORD_HEADER_LEN {
        Some(WireError::Truncated)
    } else if le_u32(b, o + 8) != le_u32(b, o + 12) {
        Some(WireError::LengthMismatch)
    } else if le_u32(b, o + 8) < MIN_FRAME_LEN || b.len() - o - RECORD_HEADER_LEN < le_u32(
        b,
        o + 8,
    ) {
        Some(WireError::Truncated)
    } else {
        None
    }
}

/// Where the record at byte `o` ends.
pub open spec fn record_end(b: Seq<u8>, o: int) -> int {
    o + RECORD_HEADER_LEN + le_u32(b, o + 8)
}

/// Scanning records from byte `o` to the end of `b`: the offsets of the
/// records decoded, the error that stopped the scan, if any, and the offset
/// where it stopped.
pub open spec fn scan(b: Seq<u8>, o: int) -> (Seq<int>, Option<WireError>, int)
    decreases b.len() - o,
{
    if o < 0 || o >= b.len() {
        (Seq::<int>::empty(), None, o)
    } else {
        match record_error(b, o) {
            Some(e) => (Seq::<int>::empty(), Some(e), o),
            None => {
                let rest = scan(b, record_end(b, o));
                (seq![o] + rest.0, rest.1, rest.2)
            },
        }
    }
}

fn le_u32_at(v: &Vec<u8>, i: usize) -> (r: u32)
    requires
        i + 4 <= v@.len(),
    ensures
        r == le_u32(v@, i as int),
{
    let n = v.len();
    assert(i + 4 <= n);
    let b0: u32 = v[i] as u32;
    let b1: u32 = v[i + 1] as u32;
    let b2: u32 = v[i + 2] as u32;
    let b3: u32 = v[i + 3] as u32;
    assert(b0 < 256 && b1 < 256 && b2 < 256 && b3 < 256);
    b0 + 256 * b1 + 65536 * b2 + 16777216 * b3
}

fn take2(c: &mut BitCursor) -> (r: [u8; 2])
    requires
        old(c).wf(),
        old(c).aligned(),
        16 <= old(c).remaining(),
    ensures
        final(c).wf(),
        final(c).bytes() == old(c).bytes(),
        final(c).pos() == old(c).pos() + 16,
        r@ == old(c).bytes().subrange(old(c).pos() / 8, old(c).pos() / 8 + 2),
{
    proof {
        c.lemma_wf();
    }
    let v = match c.read_bytes(2) {
        Ok(v) => v,
        Err(_) => return [0u8; 2],
    };
    assert(v@.len() == 2);
    let r = [v[0], v[1]];
    assert(r@ =~= v@);
    r
}

fn take4(c: &mut BitCursor) -> (r: [u8; 4])
    requires
        old(c).wf(),
        old(c).aligned(),
        32 <= old(c).remaining(),
    ensures
        final(c).wf(),
        final(c).bytes() == old(c).bytes(),
        final(c).pos() == old(c).pos() + 32,
        r@ == old(c).bytes().subrange(old(c).pos() / 8, old(c).pos() / 8 + 4),
{
    proof {
        c.lemma_wf();
    }
    let v = match c.read_bytes(4) {
        Ok(v) => v,
        Err(_) => return [0u8; 4],
    };
    assert(v@.len() == 4);
    let r = [v[0], v[1], v[2], v[3]];
    assert(r@ =~= v@);
    r
}

fn take6(c: &mut BitCursor) -> (r: [u8; 6])
    requires
        old(c).wf(),
        old(c).aligned(),
        48 <= old(c).remaining(),
    ensures
        final(c).wf(),
        final(c).bytes() == old(c).bytes(),
        final(c).pos() == old(c).pos() + 48,
        r@ == old(c).bytes().subrange(old(c).pos() / 8, old(c).pos() / 8 + 6),
{
    proof {
        c.lemma_wf();
    }
    let v = match c.read_bytes(6) {
        Ok(v) => v,
        Err(_) => return [0u8; 6],
    };
    assert(v@.len() == 6);
    let r = [v[0], v[1], v[2], v[3], v[4], v[5]];
    assert(r@ =~= v@);
    r
}

/// Decodes the global header at the cursor. Fails with `Truncated`, moving
/// nothing, when fewer than 24 bytes remain. The magic number is not checked.
pub fn decode_capture_header(c: &mut BitCursor) -> (r: Result<CaptureHeader, WireError>)
    requires
        old(c).wf(),
        old(c).aligned(),
    ensures
        final(c).wf(),
        final(c).bytes() == old(c).bytes(),
        match r {
            Ok(h) => {
                &&& 8 * GLOBAL_HEADER_LEN <= old(c).remaining()
                &&& header_fields_at(h, old(c).bytes(), old(c).pos() / 8)
                &&& final(c).pos() == old(c).pos() + 8 * GLOBAL_HEADER_LEN
            },
            Err(e) => {
                &&& e == WireError::Truncated
                &&& 8 * GLOBAL_HEADER_LEN > old(c).remaining()
                &&& final(c).pos() == old(c).pos()
            },
        },
{
    if c.remaining_bytes() < GLOBAL_HEADER_LEN {
        return Err(WireError::Truncated);
    }
    let magic = take4(c);
    let major_version = take2(c);
    let minor_version = take2(c);
    let timezone_offset = take4(c);
    let timestamp_accuracy = take4(c);
    let snapshot_length = take4(c);
    let link_type = take4(c);
    Ok(
        CaptureHeader {
            magic,
            major_version,
            minor_version,
            timezone_offset,
            timestamp_accuracy,
            snapshot_length,
            link_type,
        },
    )
}

/// Decodes the frame of `len` bytes at the cursor.
fn decode_frame(c: &mut BitCursor, len: usize) -> (f: EthernetFrame)
    requires
        old(c).wf(),
        old(c).aligned(),
        MIN_FRAME_LEN <= len,
        8 * len <= old(c).remaining(),
    ensures
        final(c).wf(),
        final(c).bytes() == old(c).bytes(),
        final(c).pos() == old(c).pos() + 8 * len,
        frame_at(f, old(c).bytes(), old(c).pos() / 8, len as int),
{
    let destination = take6(c);
    let source = take6(c);
    let ether_type = take2(c);
    let payload = match c.read_bytes(len - MIN_FRAME_LEN) {
        Ok(p) => p,
        Err(_) => Vec::new(),
    };
    let frame_check = take4(c);
    EthernetFrame { destination, source, ether_type, payload, frame_check }
}

/// Decodes the record at the cursor: its header, then its frame of
/// captured-length bytes. On failure the cursor does not move; the error is
/// `record_error` of the position.
pub fn decode_record(c: &mut BitCursor) -> (r: Result<(RecordHeader, EthernetFrame), WireError>)
    requires
        old(c).wf(),
        old(c).aligned(),
    ensures
        final(c).wf(),
        final(c).bytes() == old(c).bytes(),
        match r {
            Ok((h, f)) => {
                let b = old(c).bytes();
                let o = old(c).pos() / 8;
                &&& record_error(b, o) is None
                &&& h == record_header_at(b, o)
                &&& frame_at(f, b, o + RECORD_HEADER_LEN, h.captured_length as int)
                &&& final(c).pos() == 8 * record_end(b, o)
            },
            Err(e) => {
                &&& record_error(old(c).bytes(), old(c).pos() / 8) == Some(e)
                &&& final(c).pos() == old(c).pos()
            },
        },
{
    let start = c.byte_offset();
    proof {
        c.lemma_wf();
    }
    if c.remaining_bytes() < RECORD_HEADER_LEN {
        return Err(WireError::Truncated);
    }
    let raw = match c.read_bytes(RECORD_HEADER_LEN) {
        Ok(v) => v,
        Err(e) => return Err(e),
    };
    let header = RecordHeader {
        ts_seconds: le_u32_at(&raw, 0),
        ts_micros: le_u32_at(&raw, 4),
        captured_length: le_u32_at(&raw, 8),
        original_length: le_u32_at(&raw, 12),
    };
    if header.captured_length != header.original_length {
        c.seek_byte(start);
        return Err(WireError::LengthMismatch);
    }
    let len = header.captured_length as usize;
    if len < MIN_FRAME_LEN || c.remaining_bytes() < len {
        c.seek_byte(start);
        return Err(WireError::Truncated);
    }
    let frame = decode_frame(c, len);
    Ok((header, frame))
}

/// Decodes records from the cursor until the buffer ends or a record cannot be
/// decoded. The records are those of `scan` from the position, numbered from
/// zero; the cursor stops where the scan stopped.
pub fn decode_all(c: &mut BitCursor) -> (r: RecordScan)
    requires
        old(c).wf(),
        old(c).aligned(),
    ensures
        final(c).wf(),
        final(c).bytes() == old(c).bytes(),
        ({
            let b = old(c).bytes();
            let s = scan(b, old(c).pos() / 8);
            &&& r.records@.len() == s.0.len()
            &&& forall|i: int|
                0 <= i < s.0.len() ==> {
                    let rec = #[trigger] r.records@[i];
                    &&& rec.index == i
                    &&& rec.header == record_header_at(b, s.0[i])
                    &&& frame_at(
                        rec.frame,
                        b,
                        s.0[i] + RECORD_HEADER_LEN,
                        rec.header.captured_length as int,
                    )
                }
            &&& r.error == s.1
            &&& final(c).pos() == 8 * s.2
        }),
{
    let ghost b = c.bytes();
    let ghost start = c.pos() / 8;
    let ghost done: Seq<int> = Seq::empty();
    let mut records: Vec<Record> = Vec::new();
    let mut k: usize = 0;
    proof {
        c.lemma_wf();
    }
    while !c.is_at_end()
        invariant
            c.wf(),
            c.aligned(),
            c.bytes() == b,
            b == old(c).bytes(),
            start == old(c).pos() / 8,
            k == records@.len(),
            k == done.len(),
            16 * k <= c.pos() / 8,
            0 <= c.pos() / 8 <= b.len(),
            scan(b, start).0 == done + scan(b, c.pos() / 8).0,
            scan(b, start).1 == scan(b, c.pos() / 8).1,
            scan(b, start).2 == scan(b, c.pos() / 8).2,
            forall|i: int|
                0 <= i < k ==> {
                    let rec = #[trigger] records@[i];
                    &&& rec.index == i
                    &&& rec.header == record_header_at(b, done[i])
                    &&& frame_at(
                        rec.frame,
                        b,
                        done[i] + RECORD_HEADER_LEN,
                        rec.header.captured_length as int,
                    )
                },
        decreases b.len() - c.pos() / 8,
    {
        let ghost o = c.pos() / 8;
        match decode_record(c) {
            Ok((header, frame)) => {
                proof {
                    let rest = scan(b, record_end(b, o));
                    assert(scan(b, o).0 == seq![o] + rest.0);
                    assert(done + scan(b, o).0 =~= done.push(o) + rest.0);
                    done = done.push(o);
                }
                proof {
                    c.lemma_wf();
                }
                records.push(Record { index: k, header, frame });
                k = k + 1;
            },
            Err(e) => {
                return RecordScan { records, error: Some(e) };
            },
        }
    }
    proof {
        assert(done + Seq::<int>::empty() =~= done);
    }
    RecordScan { records, error: None }
}

/// Every record that a scan yields has equal captured and original lengths,
/// and a record whose lengths differ stops the scan there with `LengthMismatch`.
pub proof fn lemma_scan_lengths_agree(b: Seq<u8>, o: int)
    ensures
        forall|i: int|
            0 <= i < scan(b, o).0.len() ==> {
                let h = #[trigger] record_header_at(b, scan(b, o).0[i]);
                h.captured_length == h.original_length
            },
        0 <= o && o + RECORD_HEADER_LEN <= b.len() && le_u32(b, o + 8) != le_u32(b, o + 12)
            ==> scan(b, o) == (Seq::<int>::empty(), Some(WireError::LengthMismatch), o),
    decreases b.len() - o,
{
    if 0 <= o < b.len() && record_error(b, o) is None {
        let next = record_end(b, o);
        lemma_scan_lengths_agree(b, next);
        let s = scan(b, o).0;
        assert(s == seq![o] + scan(b, next).0);
        assert forall|i: int| 0 <= i < s.len() implies {
            let h = #[trigger] record_header_at(b, s[i]);
            h.captured_length == h.original_length
        } by {
            if i > 0 {
                assert(s[i] == scan(b, next).0[i - 1]);
            }
        }
    }
}

/// A record cut short fails with `Truncated`: one whose header does not fit,
/// and one whose lengths agree but whose frame does not fit.
pub proof fn lemma_truncated_record(b: Seq<u8>, o: int)
    requires
        0 <= o <= b.len(),
    ensures
        b.len() - o < RECORD_HEADER_LEN ==> record_error(b, o) == Some(WireError::Truncated),
        b.len() - o >= RECORD_HEADER_LEN && le_u32(b, o + 8) == le_u32(b, o + 12) && b.len() - o
            < RECORD_HEADER_LEN + le_u32(b, o + 8) ==> record_error(b, o) == Some(
            WireError::Truncated,
        ),
{
}

impl EthernetFrame {
    /// The destination address in canonical form, `xx-xx-xx-xx-xx-xx`.
    pub fn destination_text(&self) -> (r: String)
        ensures
            r@ == crate::mac::mac_text(self.destination@),
    {
        mac_canonical(self.destination)
    }

    /// The source address in canonical form, `xx-xx-xx-xx-xx-xx`.
    pub fn source_text(&self) -> (r: String)
        ensures
            r@ == crate::mac::mac_text(self.source@),
    {
        mac_canonical(self.source)
    }
}

} // verus!
