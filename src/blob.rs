//! A small tagged blob: a day-of-week byte, a length byte, the payload, and a
//! footer holding the second of the minute and the seconds into the day.

use crate::WireError;
use vstd::arithmetic::div_mod::lemma_div_denominator;
use vstd::arithmetic::power2::{lemma2_to64, lemma_pow2_adds, lemma_pow2_pos, pow2};
use vstd::bits::lemma_u8_shl_is_mul;
use vstd::prelude::*;

verus! {

/// The longest payload that the length byte can state.
pub const MAX_PAYLOAD_LEN: usize = 255;

/// The flag in the first byte that marks a blob made after noon.
pub const AFTERNOON_FLAG: u8 = 128;

/// The first byte: bit `weekday` (0 is Monday) set, and the top bit set for an
/// afternoon.
pub open spec fn day_byte(weekday: u8, afternoon: bool) -> u8 {
    (pow2(weekday as nat) + if afternoon { 128nat } else { 0nat }) as u8
}

/// The eight bytes of `v`, least significant first.
pub open spec fn le_bytes(v: u64) -> Seq<u8> {
    Seq::new(8, |i: int| ((v as nat / pow2(8 * i as nat)) % 256) as u8)
}

/// The whole blob.
pub open spec fn blob_bytes(
    weekday: u8,
    afternoon: bool,
    payload: Seq<u8>,
    minute_second: u8,
    day_seconds: i64,
) -> Seq<u8> {
    seq![day_byte(weekday, afternoon), payload.len() as u8] + payload + seq![minute_second]
        + le_bytes(day_seconds as u64)
}

/// Builds the blob. Fails with `FieldOverflow` when the payload is longer
/// than 255 bytes.
pub fn build_blob(
    weekday: u8,
    afternoon: bool,
    payload: &[u8],
    minute_second: u8,
    day_seconds: i64,
) -> (r: Result<Vec<u8>, WireError>)
    requires
        weekday < 7,
    ensures
        match r {
            Ok(v) => payload@.len() <= MAX_PAYLOAD_LEN && v@ == blob_bytes(
                weekday,
                afternoon,
                payload@,
                minute_second,
                day_seconds,
            ),
            Err(e) => payload@.len() > MAX_PAYLOAD_LEN && e == WireError::FieldOverflow,
        },
{
    if payload.len() > MAX_PAYLOAD_LEN {
        return Err(WireError::FieldOverflow);
    }
    proof {
        lemma2_to64();
        if weekday < 6 {
            vstd::arithmetic::power2::lemma_pow2_strictly_increases(weekday as nat, 6);
        }
        lemma_u8_shl_is_mul(1, weekday);
    }
    let day = (1u8 << weekday) + if afternoon { AFTERNOON_FLAG } else { 0 };
    let mut out: Vec<u8> = Vec::new();
    out.push(day);
    out.push(payload.len() as u8);
    let mut i: usize = 0;
    while i < payload.len()
        invariant
            i <= payload@.len() <= MAX_PAYLOAD_LEN,
            out@ == seq![day_byte(weekday, afternoon), payload@.len() as u8] + payload@.subrange(
                0,
                i as int,
            ),
        decreases payload@.len() - i,
    {
        out.push(payload[i]);
        i = i + 1;
        assert(out@ =~= seq![day_byte(weekday, afternoon), payload@.len() as u8]
            + payload@.subrange(0, i as int));
    }
    assert(payload@.subrange(0, i as int) =~= payload@);
    out.push(minute_second);
    let ghost head = out@;
    let v0 = #[verifier::truncate] (day_seconds as u64);
    let mut v = v0;
    let mut k: usize = 0;
    proof {
        assert(v0 as nat / pow2(0) == v0) by {
            lemma2_to64();
        }
    }
    while k < 8
        invariant
            k <= 8,
            v == v0 as nat / pow2(8 * k as nat),
            out@ == head + le_bytes(v0).subrange(0, k as int),
        decreases 8 - k,
    {
        proof {
            lemma_pow2_pos(8 * k as nat);
            lemma_pow2_adds(8 * k as nat, 8);
            lemma2_to64();
            lemma_div_denominator(v0 as int, pow2(8 * k as nat) as int, 256);
            assert(8 * (k + 1) as nat == 8 * k as nat + 8);
        }
        out.push((v % 256) as u8);
        v = v / 256;
        k = k + 1;
        assert(out@ =~= head + le_bytes(v0).subrange(0, k as int));
    }
    assert(le_bytes(v0).subrange(0, 8) =~= le_bytes(v0));
    Ok(out)
}

} // verus!
