//! Domain names as length-prefixed labels, and whole query and response
//! messages of the one supported shape: one question, one address answer.

use crate::bits::msb_bits;
use crate::query::{
    decoded_header, construct_dns_headerr, header_bits, query_header, Opcode, DnsHeader,
    HEADER_LEN, LABEL_SEPARATOR,
};
use crate::WireError;
use vstd::prelude::*;
use vstd::string::StringSliceAdditionalSpecFns;

verus! {

/// The longest label that a one-byte length prefix can describe.
pub const MAX_LABEL_LEN: usize = 255;

/// The class of every query built here (Internet).
pub const CLASS_INTERNET: u16 = 1;

/// Length of the shortest response: a header and a four-byte address.
pub const MIN_RESPONSE_LEN: usize = 16;

/// The number of bytes other than the separator that end at index `i` of `s`
/// (the length of the label being read there).
pub open spec fn run_len(s: Seq<u8>, i: int) -> nat
    decreases i,
{
    if i <= 0 || i > s.len() || s[i - 1] == LABEL_SEPARATOR {
        0
    } else {
        run_len(s, i - 1) + 1
    }
}

/// Some label of `s` is longer than a length prefix can state.
pub open spec fn has_long_label(s: Seq<u8>) -> bool {
    exists|i: int| 0 < i <= s.len() && #[trigger] run_len(s, i) > MAX_LABEL_LEN
}

/// The labels of `s`: the pieces between separators, empty ones included.
pub open spec fn labels(s: Seq<u8>) -> Seq<Seq<u8>>
    decreases s.len(),
{
    if s.len() == 0 {
        seq![Seq::<u8>::empty()]
    } else {
        let prev = labels(s.drop_last());
        if s.last() == LABEL_SEPARATOR {
            prev.push(Seq::<u8>::empty())
        } else {
            prev.update(prev.len() - 1, prev.last().push(s.last()))
        }
    }
}

/// Each label preceded by its length in one byte.
pub open spec fn prefixed(ls: Seq<Seq<u8>>) -> Seq<u8>
    decreases ls.len(),
{
    if ls.len() == 0 {
        Seq::<u8>::empty()
    } else {
        prefixed(ls.drop_last()) + seq![ls.last().len() as u8] + ls.last()
    }
}

/// The bytes that follow the labels of a question: the root label, the record
/// type and the class, both big-endian.
pub open spec fn question_trailer(record_type: u16) -> Seq<u8> {
    seq![0u8, (record_type / 256) as u8, (record_type % 256) as u8, 0u8, CLASS_INTERNET as u8]
}

/// Appends `s[from..to]` to `out`.
fn extend_range(out: &mut Vec<u8>, s: &[u8], from: usize, to: usize)
    requires
        from <= to <= s@.len(),
    ensures
        final(out)@ == old(out)@ + s@.subrange(from as int, to as int),
{
    let mut i = from;
    while i < to
        invariant
            from <= i <= to <= s@.len(),
            out@ == old(out)@ + s@.subrange(from as int, i as int),
        decreases to - i,
    {
        out.push(s[i]);
        i = i + 1;
        assert(out@ =~= old(out)@ + s@.subrange(from as int, i as int));
    }
}

/// Encodes `name` as its `.`-separated labels, each preceded by its length.
/// Fails with `FieldOverflow`, emitting nothing, when a label is longer than
/// 255 bytes. No root label is appended.
pub fn convert_domain_to_questions(name: &str) -> (r: Result<Vec<u8>, WireError>)
    ensures
        match r {
            Ok(v) => !has_long_label(name.spec_bytes()) && v@ == prefixed(labels(name.spec_bytes())),
            Err(e) => has_long_label(name.spec_bytes()) && e == WireError::FieldOverflow,
        },
{
    let s = name.as_bytes();
    let ghost t = s@;
    let mut out: Vec<u8> = Vec::new();
    let mut start: usize = 0;
    let mut i: usize = 0;
    proof {
        assert(t.subrange(0, 0) =~= Seq::<u8>::empty());
        assert(labels(t.subrange(0, 0)).drop_last() =~= Seq::<Seq<u8>>::empty());
    }
    while i < s.len()
        invariant
            t == s@,
            t == name.spec_bytes(),
            start <= i <= t.len(),
            i - start == run_len(t, i as int),
            i - start <= MAX_LABEL_LEN,
            forall|j: int| 0 < j <= i ==> #[trigger] run_len(t, j) <= MAX_LABEL_LEN,
            labels(t.subrange(0, i as int)).len() >= 1,
            labels(t.subrange(0, i as int)).last() == t.subrange(start as int, i as int),
            out@ == prefixed(labels(t.subrange(0, i as int)).drop_last()),
        decreases t.len() - i,
    {
        let ghost pre = t.subrange(0, i as int);
        let ghost next = t.subrange(0, i + 1);
        proof {
            assert(next.drop_last() =~= pre);
            assert(next.last() == t[i as int]);
        }
        if s[i] == LABEL_SEPARATOR {
            let ghost ls = labels(pre);
            proof {
                assert(labels(next) == ls.push(Seq::<u8>::empty()));
                assert(labels(next).drop_last() =~= ls);
                assert(ls =~= ls.drop_last().push(ls.last()));
            }
            out.push((i - start) as u8);
            extend_range(&mut out, s, start, i);
            i = i + 1;
            start = i;
            proof {
                assert(prefixed(ls) == prefixed(ls.drop_last()) + seq![ls.last().len() as u8]
                    + ls.last());
                assert(out@ =~= prefixed(ls));
                assert(t.subrange(start as int, i as int) =~= Seq::<u8>::empty());
            }
        } else {
            if i - start == MAX_LABEL_LEN {
                assert(run_len(t, i + 1) > MAX_LABEL_LEN);
                return Err(WireError::FieldOverflow);
            }
            let ghost ls = labels(pre);
            proof {
                assert(labels(next) == ls.update(ls.len() - 1, ls.last().push(t[i as int])));
                assert(labels(next).drop_last() =~= ls.drop_last());
                assert(labels(next).last() =~= t.subrange(start as int, i + 1));
            }
            i = i + 1;
        }
    }
    proof {
        assert(t.subrange(0, t.len() as int) =~= t);
        let ls = labels(t);
        assert(ls =~= ls.drop_last().push(ls.last()));
        assert(!has_long_label(t));
    }
    let len = i - start;
    out.push(len as u8);
    extend_range(&mut out, s, start, i);
    proof {
        let ls = labels(t);
        assert(out@ =~= prefixed(ls));
    }
    Ok(out)
}

/// A decoded response: its header and the address that its single answer
/// carries in the last four bytes.
#[derive(Debug, Clone, Copy, PartialEq, Eq)]
pub struct Response {
    pub header: DnsHeader,
    pub address: [u8; 4],
}

/// Builds a one-question query for `domain`: the header (opcode Query,
/// recursion desired, one question), the labels of `domain`, the root label,
/// the record type and the Internet class. Fails as `convert_domain_to_questions` does.
pub fn build_query(tx_id: u16, domain: &str, record_type: u16) -> (r: Result<Vec<u8>, WireError>)
    ensures
        match r {
            Ok(m) => {
                let names = prefixed(labels(domain.spec_bytes()));
                &&& !has_long_label(domain.spec_bytes())
                &&& m@.len() == HEADER_LEN + names.len() + 5
                &&& msb_bits(m@.subrange(0, HEADER_LEN as int)) == header_bits(
                    query_header(tx_id, Opcode::Query, true, 1),
                )
                &&& m@.subrange(HEADER_LEN as int, HEADER_LEN + names.len()) == names
                &&& m@.subrange(HEADER_LEN + names.len(), m@.len() as int) == question_trailer(
                    record_type,
                )
            },
            Err(e) => has_long_label(domain.spec_bytes()) && e == WireError::FieldOverflow,
        },
{
    let names = match convert_domain_to_questions(domain) {
        Ok(n) => n,
        Err(e) => return Err(e),
    };
    let mut m = construct_dns_headerr(tx_id, Opcode::Query, true, 1);
    let ghost header = m@;
    let n = names.len();
    extend_range(&mut m, names.as_slice(), 0, n);
    m.push(0);
    m.push((record_type / 256) as u8);
    m.push((record_type % 256) as u8);
    m.push(0);
    m.push(CLASS_INTERNET as u8);
    proof {
        assert(names@.subrange(0, n as int) =~= names@);
        assert(m@.subrange(0, HEADER_LEN as int) =~= header);
        assert(m@.subrange(HEADER_LEN as int, HEADER_LEN + n) =~= names@);
        assert(m@.subrange(HEADER_LEN + n, m@.len() as int) =~= question_trailer(record_type));
    }
    Ok(m)
}

/// Decodes a response of the supported shape: the header from the first
/// twelve bytes and the answer address from the last four. Fails with
/// `Truncated` when fewer than sixteen bytes are given, and otherwise as
/// `DnsHeader::from_bytes` does.
pub fn parse_response(buf: &[u8]) -> (r: Result<Response, WireError>)
    ensures
        buf@.len() < MIN_RESPONSE_LEN ==> r == Err::<Response, WireError>(WireError::Truncated),
        buf@.len() >= MIN_RESPONSE_LEN ==> match decoded_header(buf@) {
            Ok(h) => r is Ok && r->Ok_0.header == h && r->Ok_0.address@ == buf@.subrange(
                buf@.len() - 4,
                buf@.len() as int,
            ),
            Err(e) => r == Err::<Response, WireError>(e),
        },
{
    let n = buf.len();
    if n < MIN_RESPONSE_LEN {
        return Err(WireError::Truncated);
    }
    let header = match DnsHeader::from_bytes(buf) {
        Ok(h) => h,
        Err(e) => return Err(e),
    };
    let address = [buf[n - 4], buf[n - 3], buf[n - 2], buf[n - 1]];
    assert(address@ =~= buf@.subrange(n - 4, n as int));
    Ok(Response { header, address })
}

} // verus!
