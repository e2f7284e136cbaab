//! Bit-level stream writers.
//!
//! `BitWriter` writes a forward bit stream.  `BackwardBitWriter` writes the bit
//! streams of the entropy coders: its bytes are written forward, and a decoder
//! reads them from the last byte to the first, starting below the final 1 bit.
use crate::bits;
use crate::bits::{low_bits, shift_right};
use vstd::arithmetic::div_mod::*;
use vstd::arithmetic::mul::*;
use vstd::arithmetic::power2::*;
use vstd::bits::*;
use vstd::prelude::*;

verus! {

/// Or-ing a shifted value into free high bits is an addition.
proof fn lemma_or_is_add(c: u64, x: u64, p: u64)
    requires
        p < 64,
        c < pow2(p as nat),
        x * pow2(p as nat) <= u64::MAX,
    ensures
        (c | (x << p)) == c + x * pow2(p as nat),
{
    bits::lemma_pow2_u64(p as nat);
    lemma_u64_shl_is_mul(x, p);
    let y = x << p;
    assert((x << p) >> p == x) by {
        lemma_u64_shr_is_div(y, p);
        lemma_div_multiples_vanish(x as int, pow2(p as nat) as int);
        lemma_mul_is_commutative(x as int, pow2(p as nat) as int);
    }
    assert(c | y == c + y) by (bit_vector)
        requires
            p < 64,
            c < (1u64 << p),
            y == x << p,
            y >> p == x,
    ;
}

/// Appending a value to the high end of a word appends its bits.
proof fn lemma_append_bits(c: u64, p: nat, v: nat, n: nat)
    requires
        c < pow2(p),
    ensures
        bits::bits_of((c + (v % pow2(n)) * pow2(p)) as nat, p + n) == bits::bits_of(c as nat, p)
            + bits::bits_of(v, n),
        c + (v % pow2(n)) * pow2(p) < pow2(p + n),
        (v % pow2(n)) * pow2(p) < pow2(p + n),
{
    let x = v % pow2(n);
    lemma_pow2_pos(n);
    lemma_pow2_pos(p);
    bits::lemma_bits_of_join(c as nat, x, p, n);
    lemma_mul_is_commutative(x as int, pow2(p) as int);
    bits::lemma_bits_of_mod(v, n);
    lemma_pow2_adds(p, n);
    lemma_mod_bound(v as int, pow2(n) as int);
    assert(c + x * pow2(p) < pow2(p) * pow2(n) && x * pow2(p) >= 0) by (nonlinear_arith)
        requires
            c < pow2(p),
            x < pow2(n),
            pow2(p) > 0,
            x >= 0,
            c >= 0,
    ;
}

/// Forward bit stream writer.
pub struct BitWriter {
    buf: Vec<u8>,
    bit_pos: u32,
    current: u8,
}

impl BitWriter {
    /// The bits written so far, in the order in which they were written.
    pub closed spec fn bits(&self) -> Seq<bool> {
        bits::byte_bits(self.buf@) + bits::bits_of(self.current as nat, self.bit_pos as nat)
    }

    pub closed spec fn wf(&self) -> bool {
        &&& self.bit_pos < 8
        &&& (self.current as nat) < pow2(self.bit_pos as nat)
    }

    pub fn new() -> (w: Self)
        ensures
            w.wf(),
            w.bits() == Seq::<bool>::empty(),
    {
        proof {
            lemma2_to64();
        }
        let w = BitWriter { buf: Vec::with_capacity(256), bit_pos: 0, current: 0 };
        assert(w.bits() =~= Seq::<bool>::empty());
        w
    }

    /// Appends the low `nbits` bits of `value`; bits past the 64th are zero.
    pub fn write_bits(&mut self, value: u64, nbits: u32)
        requires
            old(self).wf(),
        ensures
            final(self).wf(),
            final(self).bits() == old(self).bits() + bits::bits_of(value as nat, nbits as nat),
    {
        let mut val: u64 = value;
        let mut bits: u32 = nbits;
        let ghost goal = self.bits() + bits::bits_of(value as nat, nbits as nat);
        while bits > 0
            invariant
                self.wf(),
                self.bits() + bits::bits_of(val as nat, bits as nat) == goal,
            decreases bits,
        {
            let space = 8 - self.bit_pos;
            let take = if space < bits {
                space
            } else {
                bits
            };
            let low = low_bits(val, take);
            let ghost old_val = val;
            let ghost old_bits = bits;
            let ghost old_pos = self.bit_pos;
            let ghost old_cur = self.current;
            let ghost before = self.bits();
            proof {
                lemma2_to64();
                lemma_append_bits(old_cur as u64, old_pos as nat, val as nat, take as nat);
                bits::lemma_pow2_monotone((old_pos + take) as nat, 8);
                lemma_or_is_add(old_cur as u64, low, old_pos as u64);
                bits::lemma_bits_of_split(val as nat, take as nat, (bits - take) as nat);
            }
            let merged: u64 = (self.current as u64) | (low << (self.bit_pos as u64));
            self.current = merged as u8;
            val = shift_right(val, take);
            bits = bits - take;
            self.bit_pos = self.bit_pos + take;
            proof {
                assert(self.bits() =~= before + bits::bits_of(old_val as nat, take as nat));
                let taken = bits::bits_of(old_val as nat, take as nat);
                let left = bits::bits_of(val as nat, bits as nat);
                assert(self.bits() + left =~= before + (taken + left));
            }
            if self.bit_pos == 8 {
                proof {
                    bits::lemma_byte_bits_push(self.buf@, self.current);
                }
                let ghost b1 = self.bits();
                self.buf.push(self.current);
                self.current = 0;
                self.bit_pos = 0;
                assert(self.bits() =~= b1);
            }
        }
        assert(bits::bits_of(val as nat, 0) =~= Seq::<bool>::empty());
        assert(self.bits() + bits::bits_of(val as nat, 0) =~= self.bits());
    }

    /// The bytes of the stream: the written bits, and zero bits up to a whole byte.
    pub fn finish(self) -> (bytes: Vec<u8>)
        requires
            self.wf(),
        ensures
            bytes@ == bits::pack(self.bits()),
    {
        let mut buf = self.buf;
        if self.bit_pos > 0 {
            proof {
                bits::lemma_bits_of_pad(
                    self.current as nat,
                    self.bit_pos as nat,
                    (8 - self.bit_pos) as nat,
                );
                bits::lemma_byte_bits_push(buf@, self.current);
            }
            buf.push(self.current);
        }
        proof {
            assert(bits::byte_bits(buf@) =~= self.bits() + bits::zeros(
                (8 * buf@.len() - self.bits().len()) as nat,
            ));
            bits::lemma_pack_unique(buf@, self.bits());
        }
        buf
    }

    /// The number of bits written.
    pub fn len(&self) -> (n: usize)
        requires
            self.wf(),
            self.bits().len() <= usize::MAX,
        ensures
            n == self.bits().len(),
    {
        self.buf.len() * 8 + self.bit_pos as usize
    }
}

impl Default for BitWriter {
    fn default() -> (w: Self)
        ensures
            w.wf(),
            w.bits() == Seq::<bool>::empty(),
    {
        Self::new()
    }
}

/// Backward bit stream writer: bits gather, least significant first, in a 64-bit
/// container; `flush_bits` moves its whole bytes to the output.
pub struct BackwardBitWriter {
    container: u64,
    bit_pos: u32,
    buf: Vec<u8>,
}

impl BackwardBitWriter {
    /// The bits added so far, in the order in which they were added.
    pub closed spec fn bits(&self) -> Seq<bool> {
        bits::byte_bits(self.buf@) + bits::bits_of(self.container as nat, self.bit_pos as nat)
    }

    /// The number of bits in the container.
    pub closed spec fn pending(&self) -> nat {
        self.bit_pos as nat
    }

    pub closed spec fn wf(&self) -> bool {
        &&& self.bit_pos <= 64
        &&& (self.container as nat) < pow2(self.bit_pos as nat)
    }

    pub fn new() -> (w: Self)
        ensures
            w.wf(),
            w.pending() == 0,
            w.bits() == Seq::<bool>::empty(),
    {
        proof {
            lemma2_to64();
        }
        let w = BackwardBitWriter { container: 0, bit_pos: 0, buf: Vec::with_capacity(256) };
        assert(w.bits() =~= Seq::<bool>::empty());
        w
    }

    /// Adds the low `nbits` bits of `value` to the container.
    pub fn add_bits(&mut self, value: u64, nbits: u32)
        requires
            old(self).wf(),
            nbits <= 57,
            old(self).pending() + nbits <= 64,
        ensures
            final(self).wf(),
            final(self).pending() == old(self).pending() + nbits,
            final(self).bits() == old(self).bits() + bits::bits_of(value as nat, nbits as nat),
    {
        let ghost before = self.bits();
        if nbits == 0 {
            assert(before + bits::bits_of(value as nat, 0) =~= before);
            return ;
        }
        let low = low_bits(value, nbits);
        proof {
            lemma2_to64_rest();
            lemma_append_bits(
                self.container,
                self.bit_pos as nat,
                value as nat,
                nbits as nat,
            );
            bits::lemma_pow2_monotone((self.bit_pos + nbits) as nat, 64);
            lemma_or_is_add(self.container, low, self.bit_pos as u64);
        }
        let ghost old_self = *self;
        self.container = self.container | (low << (self.bit_pos as u64));
        self.bit_pos = self.bit_pos + nbits;
        assert(self.bits() =~= before + bits::bits_of(value as nat, nbits as nat));
    }

    /// Moves the complete bytes of the container to the output.
    pub fn flush_bits(&mut self)
        requires
            old(self).wf(),
        ensures
            final(self).wf(),
            final(self).pending() == old(self).pending() % 8,
            final(self).bits() == old(self).bits(),
    {
        let ghost goal = self.bits();
        while self.bit_pos >= 8
            invariant
                self.wf(),
                self.bits() == goal,
                self.pending() % 8 == old(self).pending() % 8,
            decreases self.bit_pos,
        {
            let ghost before = *self;
            let byte = low_bits(self.container, 8);
            let rest = shift_right(self.container, 8);
            proof {
                lemma2_to64();
                let n = (self.bit_pos - 8) as nat;
                bits::lemma_bits_of_split(self.container as nat, 8, n);
                bits::lemma_bits_of_mod(self.container as nat, 8);
                bits::lemma_byte_bits_push(self.buf@, byte as u8);
                lemma_pow2_adds(8, n);
                assert(rest < pow2(n)) by (nonlinear_arith)
                    requires
                        self.container < 256 * pow2(n),
                        rest == self.container as nat / 256,
                ;
            }
            self.buf.push(byte as u8);
            self.container = rest;
            self.bit_pos = self.bit_pos - 8;
            assert(self.bits() =~= before.bits());
        }
    }

    /// Closes the stream: adds the final 1 bit and returns the bytes.
    pub fn finish(self) -> (bytes: Vec<u8>)
        requires
            self.wf(),
            self.pending() < 64,
        ensures
            bytes@ == bits::backward_stream(self.bits()),
    {
        let mut w = self;
        w.add_bits(1, 1);
        w.flush_bits();
        proof {
            lemma2_to64();
            bits::lemma_bits_of_drop_first(1, 1);
            assert(bits::bits_of(1, 1) =~= seq![true]);
        }
        let mut buf = w.buf;
        if w.bit_pos > 0 {
            proof {
                bits::lemma_pow2_monotone(w.bit_pos as nat, 8);
                bits::lemma_bits_of_pad(
                    w.container as nat,
                    w.bit_pos as nat,
                    (8 - w.bit_pos) as nat,
                );
                bits::lemma_byte_bits_push(buf@, w.container as u8);
            }
            buf.push(w.container as u8);
        }
        proof {
            let all = self.bits() + seq![true];
            let pad = (8 * buf@.len() - all.len()) as nat;
            assert(bits::byte_bits(buf@) =~= all + bits::zeros(pad));
            bits::lemma_pack_unique(buf@, all);
        }
        buf
    }
}

impl Default for BackwardBitWriter {
    fn default() -> (w: Self)
        ensures
            w.wf(),
            w.pending() == 0,
            w.bits() == Seq::<bool>::empty(),
    {
        Self::new()
    }
}

} // verus!
