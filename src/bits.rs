//! The mathematical model of bit streams: how a byte sequence reads as bits in
//! either order, and which number a run of bits denotes.

use vstd::arithmetic::div_mod::{lemma_basic_div, lemma_div_denominator, lemma_fundamental_div_mod};
use vstd::arithmetic::power2::{lemma2_to64, lemma_pow2_pos, lemma_pow2_unfold, pow2};
use vstd::prelude::*;

verus! {

/// Bit `k` of `b`, counting from the least significant bit.
pub open spec fn byte_bit(b: u8, k: nat) -> bool {
    (b as nat / pow2(k)) % 2 == 1
}

/// The bits of `bytes` in transmission order: bytes in sequence, each byte
/// most significant bit first.
pub open spec fn msb_bits(bytes: Seq<u8>) -> Seq<bool> {
    Seq::new(bytes.len() * 8, |i: int| byte_bit(bytes[i / 8], (7 - i % 8) as nat))
}

/// The bits of `bytes` with each byte read least significant bit first.
pub open spec fn lsb_bits(bytes: Seq<u8>) -> Seq<bool> {
    Seq::new(bytes.len() * 8, |i: int| byte_bit(bytes[i / 8], (i % 8) as nat))
}

pub open spec fn bit_num(b: bool) -> nat {
    if b { 1 } else { 0 }
}

/// The number whose binary digits, most significant first, are `bits`.
pub open spec fn msb_value(bits: Seq<bool>) -> nat
    decreases bits.len(),
{
    if bits.len() == 0 {
        0
    } else {
        2 * msb_value(bits.drop_last()) + bit_num(bits.last())
    }
}

/// The number whose binary digits, least significant first, are `bits`.
pub open spec fn lsb_value(bits: Seq<bool>) -> nat
    decreases bits.len(),
{
    if bits.len() == 0 {
        0
    } else {
        lsb_value(bits.drop_last()) + bit_num(bits.last()) * pow2((bits.len() - 1) as nat)
    }
}

/// The `width` low bits of `v`, most significant first.
pub open spec fn value_bits(v: nat, width: nat) -> Seq<bool> {
    Seq::new(width, |k: int| (v / pow2((width - 1 - k) as nat)) % 2 == 1)
}

/// `n` zero bits.
pub open spec fn zero_bits(n: nat) -> Seq<bool> {
    Seq::new(n, |i: int| false)
}

/// A run of `n` bits denotes a number below `2^n`.
pub proof fn lemma_msb_value_bound(bits: Seq<bool>)
    ensures
        msb_value(bits) < pow2(bits.len()),
    decreases bits.len(),
{
    if bits.len() > 0 {
        lemma_msb_value_bound(bits.drop_last());
        lemma_pow2_unfold(bits.len());
    } else {
        lemma_pow2_pos(0);
        lemma2_to64();
    }
}

/// The leading `k` of the `width` bits of `v` denote `v` shifted right by `width - k`.
proof fn lemma_value_bits_prefix(v: nat, width: nat, k: nat)
    requires
        k <= width,
        v < pow2(width),
    ensures
        msb_value(value_bits(v, width).subrange(0, k as int)) == v / pow2((width - k) as nat),
    decreases k,
{
    let s = value_bits(v, width).subrange(0, k as int);
    if k == 0 {
        lemma_basic_div(v as int, pow2(width) as int);
    } else {
        lemma_value_bits_prefix(v, width, (k - 1) as nat);
        assert(s.drop_last() =~= value_bits(v, width).subrange(0, k - 1));
        let m = (width - k) as nat;
        let x = v / pow2(m);
        lemma_pow2_pos(m);
        lemma_pow2_unfold(m + 1);
        lemma_div_denominator(v as int, pow2(m) as int, 2);
        lemma_fundamental_div_mod(x as int, 2);
        assert(pow2((width - (k - 1)) as nat) == pow2(m) * 2);
    }
}

/// Reading back the `width` bits of a value that fits gives the value.
pub proof fn lemma_msb_value_of_value_bits(v: nat, width: nat)
    requires
        v < pow2(width),
    ensures
        msb_value(value_bits(v, width)) == v,
{
    lemma_value_bits_prefix(v, width, width);
    assert(value_bits(v, width).subrange(0, width as int) =~= value_bits(v, width));
    lemma2_to64();
}

/// Appending a bit to a value doubles it and adds the bit.
pub proof fn lemma_value_bits_push(a: nat, n: nat, b: bool)
    ensures
        value_bits(2 * a + bit_num(b), n + 1) =~= value_bits(a, n).push(b),
{
    let x = 2 * a + bit_num(b);
    assert forall|k: int| 0 <= k < n implies #[trigger] value_bits(x, n + 1)[k] == value_bits(a, n)[k] by {
        let m = (n - 1 - k) as nat;
        lemma_pow2_pos(m);
        lemma_pow2_unfold(m + 1);
        assert((n + 1 - 1 - k) as nat == m + 1);
        lemma_div_denominator(x as int, 2, pow2(m) as int);
        assert(x / 2 == a);
    }
    lemma2_to64();
    assert(x / 1 == x);
    assert(value_bits(x, n + 1)[n as int] == b);
}

/// The bits of one more byte follow the bits of the bytes before it.
pub proof fn lemma_msb_bits_push(bytes: Seq<u8>, b: u8)
    ensures
        msb_bits(bytes.push(b)) =~= msb_bits(bytes) + value_bits(b as nat, 8),
{
    let n = bytes.len();
    assert forall|i: int| 8 * n <= i < 8 * n + 8 implies #[trigger] msb_bits(bytes.push(b))[i] == value_bits(b as nat, 8)[i - 8 * n] by {
        assert(i / 8 == n);
    }
}

} // verus!
