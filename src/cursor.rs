//! A positional reader over an owned byte buffer, and an append-only writer,
//! both working in whole bytes or in bit fields.

use crate::bits::{bit_num, lemma_msb_bits_push, lemma_value_bits_push, lsb_bits, lsb_value, msb_bits, msb_value, value_bits, zero_bits};
use crate::WireError;
use vstd::arithmetic::power2::{lemma2_to64, lemma_pow2_adds, lemma_pow2_pos, pow2};
use vstd::bits::{lemma_u128_shr_is_div, lemma_u8_shr_is_div};
use vstd::prelude::*;

verus! {

/// How the bits of each byte are taken when a bit field is read.
#[derive(Debug, Clone, Copy, PartialEq, Eq, Structural)]
pub enum ByteOrder {
    /// Most significant bit first; the first bit read is the field's highest.
    Big,
    /// Least significant bit first; the first bit read is the field's lowest.
    Little,
}

/// The bit stream of `bytes` as read in `order`.
pub open spec fn stream(bytes: Seq<u8>, order: ByteOrder) -> Seq<bool> {
    match order {
        ByteOrder::Big => msb_bits(bytes),
        ByteOrder::Little => lsb_bits(bytes),
    }
}

/// The number that a run of bits denotes, read in `order`.
pub open spec fn bits_value(bits: Seq<bool>, order: ByteOrder) -> nat {
    match order {
        ByteOrder::Big => msb_value(bits),
        ByteOrder::Little => lsb_value(bits),
    }
}

/// The `width`-bit field at bit offset `pos` of `bytes`, read in `order`.
pub open spec fn field(bytes: Seq<u8>, pos: int, width: int, order: ByteOrder) -> nat {
    bits_value(stream(bytes, order).subrange(pos, pos + width), order)
}

/// A reader over a byte buffer that it owns. Its position is counted in bits;
/// reads never go past the end of the buffer and never change it.
pub struct BitCursor {
    buf: Vec<u8>,
    byte: usize,
    bit: u8,
}

impl BitCursor {
    /// The buffer being read.
    pub closed spec fn bytes(&self) -> Seq<u8> {
        self.buf@
    }

    /// The position, in bits from the start of the buffer.
    pub closed spec fn pos(&self) -> int {
        8 * self.byte + self.bit
    }

    pub closed spec fn wf(&self) -> bool {
        &&& self.bit < 8
        &&& self.byte <= self.buf.len()
        &&& self.byte == self.buf.len() ==> self.bit == 0
    }

    /// Bits left between the position and the end of the buffer.
    pub open spec fn remaining(&self) -> int {
        8 * self.bytes().len() - self.pos()
    }

    pub open spec fn aligned(&self) -> bool {
        self.pos() % 8 == 0
    }

    pub fn new(buf: Vec<u8>) -> (c: Self)
        ensures
            c.wf(),
            c.bytes() == buf@,
            c.pos() == 0,
    {
        BitCursor { buf, byte: 0, bit: 0 }
    }

    pub proof fn lemma_wf(&self)
        requires
            self.wf(),
        ensures
            0 <= self.pos() <= 8 * self.bytes().len(),
            self.pos() / 8 <= usize::MAX,
    {
    }

    pub fn is_at_end(&self) -> (r: bool)
        requires
            self.wf(),
        ensures
            r == (self.remaining() == 0),
    {
        self.byte == self.buf.len()
    }

    pub fn is_aligned(&self) -> (r: bool)
        requires
            self.wf(),
        ensures
            r == self.aligned(),
    {
        self.bit == 0
    }

    /// The position in whole bytes, rounded down.
    pub fn byte_offset(&self) -> (r: usize)
        requires
            self.wf(),
        ensures
            r == self.pos() / 8,
    {
        self.byte
    }

    /// Whole bytes left after the position, counting a partly read byte as read.
    pub fn remaining_bytes(&self) -> (r: usize)
        requires
            self.wf(),
        ensures
            self.aligned() ==> 8 * r == self.remaining(),
            !self.aligned() ==> r == self.bytes().len() - self.pos() / 8 - 1,
    {
        if self.bit == 0 {
            self.buf.len() - self.byte
        } else {
            self.buf.len() - self.byte - 1
        }
    }

    /// Moves the position to the start of byte `offset`.
    pub fn seek_byte(&mut self, offset: usize)
        requires
            old(self).wf(),
            offset <= old(self).bytes().len(),
        ensures
            final(self).wf(),
            final(self).bytes() == old(self).bytes(),
            final(self).pos() == 8 * offset,
    {
        self.byte = offset;
        self.bit = 0;
    }

    /// Reads the next `n` whole bytes.
    pub fn read_bytes(&mut self, n: usize) -> (r: Result<Vec<u8>, WireError>)
        requires
            old(self).wf(),
            old(self).aligned(),
        ensures
            final(self).wf(),
            final(self).bytes() == old(self).bytes(),
            match r {
                Ok(v) => {
                    &&& 8 * n <= old(self).remaining()
                    &&& v@ == old(self).bytes().subrange(
                        old(self).pos() / 8,
                        old(self).pos() / 8 + n,
                    )
                    &&& final(self).pos() == old(self).pos() + 8 * n
                },
                Err(e) => {
                    &&& e == WireError::Truncated
                    &&& 8 * n > old(self).remaining()
                    &&& final(self).pos() == old(self).pos()
                },
            },
    {
        if n > self.buf.len() - self.byte {
            return Err(WireError::Truncated);
        }
        let start = self.byte;
        let mut v: Vec<u8> = Vec::with_capacity(n);
        let mut i: usize = 0;
        while i < n
            invariant
                i <= n,
                start + n <= self.buf.len(),
                v@ == self.buf@.subrange(start as int, start + i),
            decreases n - i,
        {
            v.push(self.buf[start + i]);
            i = i + 1;
            assert(v@ =~= self.buf@.subrange(start as int, start + i));
        }
        self.byte = start + n;
        Ok(v)
    }

    /// Reads one bit in `order` and moves past it.
    fn next_bit(&mut self, order: ByteOrder) -> (r: bool)
        requires
            old(self).wf(),
            old(self).remaining() > 0,
        ensures
            final(self).wf(),
            final(self).bytes() == old(self).bytes(),
            final(self).pos() == old(self).pos() + 1,
            r == stream(old(self).bytes(), order)[old(self).pos()],
    {
        let b = self.buf[self.byte];
        let shift: u8 = match order {
            ByteOrder::Big => 7 - self.bit,
            ByteOrder::Little => self.bit,
        };
        let x = b >> shift;
        let r = x & 1u8 == 1u8;
        proof {
            lemma_u8_shr_is_div(b, shift);
            assert(x & 1u8 == x % 2) by (bit_vector);
            let p = self.pos();
            assert(p / 8 == self.byte);
            assert(p % 8 == self.bit);
        }
        if self.bit == 7 {
            self.byte = self.byte + 1;
            self.bit = 0;
        } else {
            self.bit = self.bit + 1;
        }
        r
    }

    /// Reads a field of `width` bits, taking each byte's bits in `order`.
    pub fn read_bits(&mut self, width: u8, order: ByteOrder) -> (r: Result<u128, WireError>)
        requires
            old(self).wf(),
            1 <= width <= 128,
        ensures
            final(self).wf(),
            final(self).bytes() == old(self).bytes(),
            match r {
                Ok(v) => {
                    &&& width <= old(self).remaining()
                    &&& v == field(old(self).bytes(), old(self).pos(), width as int, order)
                    &&& final(self).pos() == old(self).pos() + width
                },
                Err(e) => {
                    &&& e == WireError::Truncated
                    &&& width > old(self).remaining()
                    &&& final(self).pos() == old(self).pos()
                },
            },
    {
        let left = self.buf.len() - self.byte;
        if left < 17 && (width as usize) > left * 8 - self.bit as usize {
            return Err(WireError::Truncated);
        }
        let ghost start = self.pos();
        let ghost s = stream(self.bytes(), order);
        let mut v: u128 = 0;
        let mut unit: u128 = 1;
        let mut k: u8 = 0;
        proof {
            lemma2_to64();
            assert(s.len() == 8 * self.bytes().len());
            assert(s.subrange(start, start) =~= Seq::<bool>::empty());
        }
        while k < width
            invariant
                self.wf(),
                self.bytes() == old(self).bytes(),
                s == stream(self.bytes(), order),
                s.len() == 8 * self.bytes().len(),
                0 <= start,
                start + width <= 8 * self.bytes().len(),
                k <= width <= 128,
                self.pos() == start + k,
                v == bits_value(s.subrange(start, start + k), order),
                v < pow2(k as nat),
                order == ByteOrder::Little && k < width ==> unit == pow2(k as nat),
            decreases width - k,
        {
            let b = self.next_bit(order);
            let ghost prev = s.subrange(start, start + k);
            let ghost next = s.subrange(start, start + k + 1);
            proof {
                assert(next.drop_last() =~= prev);
                assert(next.last() == b);
                assert(next.len() == k + 1);
                assert(msb_value(next) == 2 * msb_value(prev) + bit_num(b));
                assert(lsb_value(next) == lsb_value(prev) + bit_num(b) * pow2(k as nat));
                lemma_pow2_adds(k as nat, 1);
                lemma2_to64();
                lemma_pow2_pos(k as nat);
                lemma_pow2_fits(k as nat + 1);
            }
            match order {
                ByteOrder::Big => {
                    v = 2 * v + if b { 1u128 } else { 0u128 };
                },
                ByteOrder::Little => {
                    if b {
                        v = v + unit;
                    }
                    if k + 1 < width {
                        proof {
                            lemma_pow2_fits(k as nat + 2);
                            lemma_pow2_adds(k as nat + 1, 1);
                        }
                        unit = 2 * unit;
                    }
                },
            }
            k = k + 1;
        }
        Ok(v)
    }
}

/// An append-only writer that packs bit fields most significant bit first.
pub struct BitWriter {
    bytes: Vec<u8>,
    acc: u8,
    nacc: u8,
}

impl BitWriter {
    /// Every bit written so far, in order.
    pub closed spec fn bits(&self) -> Seq<bool> {
        msb_bits(self.bytes@) + value_bits(self.acc as nat, self.nacc as nat)
    }

    pub closed spec fn wf(&self) -> bool {
        &&& self.nacc < 8
        &&& self.acc < pow2(self.nacc as nat)
    }

    pub fn new() -> (w: Self)
        ensures
            w.wf(),
            w.bits() == Seq::<bool>::empty(),
    {
        let w = BitWriter { bytes: Vec::new(), acc: 0, nacc: 0 };
        proof {
            lemma2_to64();
            assert(w.bits() =~= Seq::<bool>::empty());
        }
        w
    }

    proof fn lemma_len(&self)
        requires
            self.wf(),
        ensures
            self.bits().len() == 8 * self.bytes@.len() + self.nacc,
            self.bits().len() % 8 == self.nacc,
    {
    }

    fn push_bit(&mut self, b: bool)
        requires
            old(self).wf(),
        ensures
            final(self).wf(),
            final(self).bits() == old(self).bits().push(b),
    {
        let ghost before = self.bits();
        proof {
            lemma_value_bits_push(self.acc as nat, self.nacc as nat, b);
            lemma_pow2_adds(self.nacc as nat, 1);
            lemma2_to64();
            assert(pow2(self.nacc as nat) <= 128) by {
                if self.nacc < 7 {
                    vstd::arithmetic::power2::lemma_pow2_strictly_increases(self.nacc as nat, 7);
                }
            }
        }
        let acc = 2 * self.acc + if b { 1u8 } else { 0u8 };
        if self.nacc == 7 {
            proof {
                lemma_msb_bits_push(self.bytes@, acc);
            }
            self.bytes.push(acc);
            self.acc = 0;
            self.nacc = 0;
            assert(self.bits() =~= before.push(b));
        } else {
            self.acc = acc;
            self.nacc = self.nacc + 1;
            assert(self.bits() =~= before.push(b));
        }
    }

    /// Appends the low `width` bits of `value`, most significant first.
    /// Fails, writing nothing, when `width` exceeds 128 or `value` does not fit.
    pub fn write_bits(&mut self, value: u128, width: u8) -> (r: Result<(), WireError>)
        requires
            old(self).wf(),
        ensures
            final(self).wf(),
            match r {
                Ok(()) => {
                    &&& width <= 128
                    &&& value < pow2(width as nat)
                    &&& final(self).bits() == old(self).bits() + value_bits(value as nat, width as nat)
                },
                Err(e) => {
                    &&& e == WireError::FieldOverflow
                    &&& (width > 128 || value >= pow2(width as nat))
                    &&& final(self).bits() == old(self).bits()
                },
            },
    {
        if width > 128 {
            return Err(WireError::FieldOverflow);
        }
        proof {
            lemma_pow2_fits(width as nat);
        }
        if width < 128 {
            proof {
                lemma_u128_shr_is_div(value, width as u128);
                lemma_pow2_pos(width as nat);
                if value >= pow2(width as nat) {
                    vstd::arithmetic::div_mod::lemma_div_is_ordered(pow2(width as nat) as int, value as int, pow2(width as nat) as int);
                    vstd::arithmetic::div_mod::lemma_div_by_self(pow2(width as nat) as int);
                } else {
                    vstd::arithmetic::div_mod::lemma_basic_div(value as int, pow2(width as nat) as int);
                }
            }
            if value >> (width as u128) != 0 {
                return Err(WireError::FieldOverflow);
            }
        }
        let ghost before = self.bits();
        let ghost all = value_bits(value as nat, width as nat);
        let mut k: u8 = 0;
        assert(all.subrange(0, 0) =~= Seq::<bool>::empty());
        assert(before + all.subrange(0, 0) =~= before);
        while k < width
            invariant
                self.wf(),
                k <= width <= 128,
                all == value_bits(value as nat, width as nat),
                self.bits() == before + all.subrange(0, k as int),
            decreases width - k,
        {
            let sh: u8 = width - 1 - k;
            let x = value >> (sh as u128);
            let b = x & 1u128 == 1u128;
            proof {
                lemma_u128_shr_is_div(value, sh as u128);
                assert(x & 1u128 == x % 2) by (bit_vector);
                assert(all[k as int] == b);
            }
            self.push_bit(b);
            k = k + 1;
            assert(all.subrange(0, k as int) =~= all.subrange(0, k - 1).push(b));
            assert(self.bits() =~= before + all.subrange(0, k as int));
        }
        assert(all.subrange(0, width as int) =~= all);
        Ok(())
    }

    /// Appends `data`, each byte most significant bit first.
    pub fn write_bytes(&mut self, data: &[u8])
        requires
            old(self).wf(),
        ensures
            final(self).wf(),
            final(self).bits() == old(self).bits() + msb_bits(data@),
    {
        let ghost before = self.bits();
        let mut i: usize = 0;
        assert(msb_bits(data@.subrange(0, 0)) =~= Seq::<bool>::empty());
        assert(before + msb_bits(data@.subrange(0, 0)) =~= before);
        while i < data.len()
            invariant
                self.wf(),
                i <= data@.len(),
                self.bits() == before + msb_bits(data@.subrange(0, i as int)),
            decreases data@.len() - i,
        {
            proof {
                lemma2_to64();
                lemma_msb_bits_push(data@.subrange(0, i as int), data@[i as int]);
                assert(data@.subrange(0, i + 1) =~= data@.subrange(0, i as int).push(data@[i as int]));
            }
            let r = self.write_bits(data[i] as u128, 8);
            assert(r is Ok);
            i = i + 1;
            assert(self.bits() =~= before + msb_bits(data@.subrange(0, i as int)));
        }
        assert(data@.subrange(0, data@.len() as int) =~= data@);
    }

    /// The bytes written, the last one padded with zero bits.
    pub fn into_bytes(self) -> (r: Vec<u8>)
        requires
            self.wf(),
        ensures
            8 * r@.len() == self.bits().len() + (8 - self.bits().len() % 8) % 8,
            msb_bits(r@) == self.bits() + zero_bits(((8 - self.bits().len() % 8) % 8) as nat),
    {
        let ghost before = self.bits();
        let mut w = self;
        proof {
            w.lemma_len();
        }
        let pad: u8 = if w.nacc == 0 { 0 } else { 8 - w.nacc };
        let mut j: u8 = 0;
        assert(before + zero_bits(0) =~= before);
        while j < pad
            invariant
                w.wf(),
                j <= pad,
                pad == (8 - before.len() % 8) % 8,
                w.bits() == before + zero_bits(j as nat),
                w.bits().len() == before.len() + j,
            decreases pad - j,
        {
            w.push_bit(false);
            j = j + 1;
            assert(w.bits() =~= before + zero_bits(j as nat));
        }
        proof {
            w.lemma_len();
            assert(w.nacc == 0);
            assert(w.bits() =~= msb_bits(w.bytes@));
        }
        w.bytes
    }
}

/// Powers of two up to the 128th are at most one past `u128::MAX`.
proof fn lemma_pow2_fits(e: nat)
    requires
        e <= 128,
    ensures
        pow2(e) <= u128::MAX + 1,
        e == 128 ==> pow2(e) == u128::MAX + 1,
{
    if e < 128 {
        vstd::arithmetic::power2::lemma_pow2_strictly_increases(e, 128);
    }
    lemma_pow2_adds(64, 64);
    lemma2_to64();
    assert(pow2(64) * pow2(64) == 0x1_0000_0000_0000_0000nat * 0x1_0000_0000_0000_0000nat);
}

} // verus!
