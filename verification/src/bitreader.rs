//! Bit-level stream readers.
use crate::bits;
use crate::bits::{low_bits, shift_right};
use crate::error::DecodeError;
use vstd::arithmetic::div_mod::*;
use vstd::arithmetic::mul::*;
use vstd::arithmetic::power2::*;
use vstd::bits::*;
use vstd::prelude::*;

verus! {

// ---------------------------------------------------------------------------
// Forward reader
// ---------------------------------------------------------------------------

/// The number in the `n` bits of `src` from bit `idx` on.
pub open spec fn forward_value(src: Seq<u8>, idx: int, n: int) -> nat {
    bits::val(bits::byte_bits(src).subrange(idx, idx + n))
}

/// What reading `n` bits at bit `idx` of `src` gives.
pub open spec fn forward_read(src: Seq<u8>, idx: nat, n: nat) -> Result<nat, DecodeError> {
    if n > 64 {
        Err(DecodeError::TooManyBitsAtOnce { wanted: n as usize })
    } else if 8 * src.len() - idx < n {
        Err(DecodeError::NotEnoughBits { wanted: n as usize, left: (8 * src.len() - idx) as usize })
    } else {
        Ok(forward_value(src, idx as int, n as int))
    }
}

/// Reads bits of a byte string from its first bit on.
pub struct BitReader<'s> {
    pub idx: usize,
    pub source: &'s [u8],
}

impl<'s> BitReader<'s> {
    pub open spec fn wf(&self) -> bool {
        self.idx <= 8 * self.source@.len() <= usize::MAX
    }

    pub fn new(source: &'s [u8]) -> (r: BitReader<'s>)
        requires
            8 * source@.len() <= usize::MAX,
        ensures
            r.wf(),
            r.idx == 0,
            r.source == source,
    {
        BitReader { idx: 0, source }
    }

    pub fn bits_left(&self) -> (n: usize)
        requires
            self.wf(),
        ensures
            n == 8 * self.source@.len() - self.idx,
    {
        self.source.len() * 8 - self.idx
    }

    pub fn bits_read(&self) -> (n: usize)
        ensures
            n == self.idx,
    {
        self.idx
    }

    /// Gives back the last `n` bits that were read.
    pub fn return_bits(&mut self, n: usize)
        requires
            old(self).wf(),
            n <= old(self).idx,
        ensures
            final(self).wf(),
            final(self).source == old(self).source,
            final(self).idx == old(self).idx - n,
    {
        self.idx = self.idx - n;
    }

    /// Reads the next `n` bits as a number; nothing is consumed on an error.
    pub fn get_bits(&mut self, n: usize) -> (r: Result<u64, DecodeError>)
        requires
            old(self).wf(),
        ensures
            final(self).wf(),
            final(self).source == old(self).source,
            match r {
                Ok(v) => forward_read(old(self).source@, old(self).idx as nat, n as nat) == Ok::<
                    nat,
                    DecodeError,
                >(v as nat) && final(self).idx == old(self).idx + n && (v as nat) < pow2(n as nat),
                Err(e) => forward_read(old(self).source@, old(self).idx as nat, n as nat) == Err::<
                    nat,
                    DecodeError,
                >(e) && final(self).idx == old(self).idx,
            },
    {
        if n > 64 {
            return Err(DecodeError::TooManyBitsAtOnce { wanted: n });
        }
        let left = self.bits_left();
        if left < n {
            return Err(DecodeError::NotEnoughBits { wanted: n, left });
        }
        let ghost all = bits::byte_bits(self.source@);
        let ghost start = self.idx as int;
        let mut value: u64 = 0;
        let mut i: usize = 0;
        proof {
            lemma2_to64();
            assert(all.subrange(start, start + 0) =~= Seq::<bool>::empty());
        }
        while i < n
            invariant
                self.wf(),
                self.source == old(self).source,
                self.idx == old(self).idx,
                start == self.idx,
                all == bits::byte_bits(self.source@),
                i <= n <= 64,
                self.idx + n <= 8 * self.source@.len(),
                value == bits::val(all.subrange(start, start + i)),
                (value as nat) < pow2(i as nat),
            decreases n - i,
        {
            let at = self.idx + i;
            let byte = self.source[at / 8];
            let bit = low_bits(shift_right(byte as u64, (at % 8) as u32), 1);
            proof {
                lemma2_to64();
                lemma2_to64_rest();
                let a = all.subrange(start, start + i);
                let b = all.subrange(start + i, start + i + 1);
                assert(all.subrange(start, start + i + 1) =~= a + b);
                bits::lemma_val_concat(a, b);
                assert(b.drop_first() =~= Seq::<bool>::empty());
                assert(bits::val(b.drop_first()) == 0);
                assert(bits::val(b) == bit as nat);
                lemma_pow2_unfold((i + 1) as nat);
                bits::lemma_pow2_u64(i as nat);
                bits::lemma_pow2_monotone((i + 1) as nat, 64);
                lemma_mul_is_commutative(bit as int, pow2(i as nat) as int);
                assert(bit * pow2(i as nat) <= pow2(i as nat)) by (nonlinear_arith)
                    requires
                        bit <= 1,
                ;
                lemma_u64_shl_is_mul(bit, i as u64);
                bits::lemma_val_bound(all.subrange(start, start + i + 1));
            }
            value = value + (bit << (i as u64));
            i = i + 1;
        }
        self.idx = self.idx + n;
        Ok(value)
    }
}

// ---------------------------------------------------------------------------
// Backward reader
// ---------------------------------------------------------------------------

/// The bits that a backward reader has yet to read.  It takes them from the end
/// of `bits`; past the first bit it reads zeros, which `debt` counts.
#[verifier::ext_equal]
pub struct RevBits {
    pub bits: Seq<bool>,
    pub debt: nat,
}

impl RevBits {
    /// The bits of a byte string, all unread.
    pub open spec fn of_bytes(src: Seq<u8>) -> RevBits {
        RevBits { bits: bits::byte_bits(src), debt: 0 }
    }

    pub open spec fn remaining(self) -> int {
        self.bits.len() - self.debt
    }

    /// The number in the next `n` bits: the bit read first is the highest.
    pub open spec fn peek(self, n: nat) -> nat {
        if n <= self.bits.len() {
            bits::val(self.bits.subrange(self.bits.len() - n, self.bits.len() as int))
        } else {
            bits::val(self.bits) * pow2((n - self.bits.len()) as nat)
        }
    }

    /// What is unread after the next `n` bits.
    pub open spec fn skip(self, n: nat) -> RevBits {
        if n <= self.bits.len() {
            RevBits { bits: self.bits.take(self.bits.len() - n), debt: self.debt }
        } else {
            RevBits { bits: Seq::empty(), debt: (self.debt + n - self.bits.len()) as nat }
        }
    }

    pub open spec fn wf(self) -> bool {
        self.debt > 0 ==> self.bits.len() == 0
    }
}

/// Bit `i` of a stream that is zero outside its bounds.
pub open spec fn ext_bit(all: Seq<bool>, i: int) -> bool {
    0 <= i < all.len() && all[i]
}

/// The `n` bits of the zero-extended stream below position `p`.
pub open spec fn ext_window(all: Seq<bool>, p: int, n: nat) -> Seq<bool> {
    Seq::new(n, |i: int| ext_bit(all, p - n + i))
}

/// The unread bits of the stream `all` when `p` bits remain.
pub open spec fn rev_at(all: Seq<bool>, p: int) -> RevBits {
    if p >= 0 {
        RevBits { bits: all.take(p), debt: 0 }
    } else {
        RevBits { bits: Seq::empty(), debt: (-p) as nat }
    }
}

pub proof fn lemma_rev_window(all: Seq<bool>, p: int, n: nat)
    requires
        p <= all.len(),
    ensures
        rev_at(all, p).peek(n) == bits::val(ext_window(all, p, n)),
        rev_at(all, p).skip(n) == rev_at(all, p - n),
        rev_at(all, p).remaining() == p,
{
    let r = rev_at(all, p);
    let w = ext_window(all, p, n);
    if n <= r.bits.len() {
        assert(r.bits.subrange(r.bits.len() - n, r.bits.len() as int) =~= w);
        if p >= 0 {
            assert(all.take(p).take(p - n) =~= all.take(p - n));
        }
    } else {
        let z = (n - r.bits.len()) as nat;
        assert(w =~= bits::zeros(z) + r.bits);
        bits::lemma_val_concat(bits::zeros(z), r.bits);
        bits::lemma_val_zeros(z);
        lemma_mul_is_commutative(bits::val(r.bits) as int, pow2(z) as int);
    }
    assert(r.skip(n) =~= rev_at(all, p - n));
}

/// Peeking at `a + b` bits is peeking at `a` bits and then at `b` bits.
pub proof fn lemma_peek_split(all: Seq<bool>, p: int, a: nat, b: nat)
    requires
        p <= all.len(),
    ensures
        ext_window(all, p, a + b) == ext_window(all, p - a, b) + ext_window(all, p, a),
        bits::val(ext_window(all, p, a + b)) == bits::val(ext_window(all, p - a, b)) + pow2(b)
            * bits::val(ext_window(all, p, a)),
{
    assert(ext_window(all, p, a + b) =~= ext_window(all, p - a, b) + ext_window(all, p, a));
    bits::lemma_val_concat(ext_window(all, p - a, b), ext_window(all, p, a));
}

/// The little-endian number in eight bytes.
fn le_word(source: &[u8], at: usize) -> (w: u64)
    requires
        at + 8 <= source@.len(),
    ensures
        bits::bits_of(w as nat, 64) == bits::byte_bits(source@).subrange(8 * at, 8 * at + 64),
{
    le_word_partial(source, at, 8)
}

/// The little-endian number in the `n` bytes from `at` on, zero-extended.
fn le_word_partial(source: &[u8], at: usize, n: usize) -> (w: u64)
    requires
        n <= 8,
        at + n <= source@.len(),
    ensures
        bits::bits_of(w as nat, 64) == bits::byte_bits(source@).subrange(8 * at, 8 * at + 8 * n)
            + bits::zeros((64 - 8 * n) as nat),
{
    let len = source.len();
    let mut w: u64 = 0;
    let mut i: usize = n;
    let ghost all = bits::byte_bits(source@);
    proof {
        lemma2_to64();
        assert(bits::bits_of(0, 0) =~= all.subrange(8 * at + 8 * n, 8 * at + 8 * n));
    }
    while i > 0
        invariant
            i <= n <= 8,
            at + n <= source@.len(),
            len == source@.len(),
            all == bits::byte_bits(source@),
            (w as nat) < pow2((8 * (n - i)) as nat),
            bits::bits_of(w as nat, (8 * (n - i)) as nat) == all.subrange(
                8 * at + 8 * i,
                8 * at + 8 * n,
            ),
        decreases i,
    {
        let b = source[at + i - 1];
        let ghost m = (8 * (n - i)) as nat;
        proof {
            lemma2_to64();
            lemma2_to64_rest();
            bits::lemma_bits_of_join(b as nat, w as nat, 8, m);
            bits::lemma_byte_bits_subrange(source@, at + i - 1, at + i);
            assert(source@.subrange(at + i - 1, at + i) =~= seq![b]);
            bits::lemma_byte_bits_single(b);
            assert(all.subrange(8 * at + 8 * (i - 1), 8 * at + 8 * n) =~= all.subrange(
                8 * (at + i - 1),
                8 * (at + i),
            ) + all.subrange(8 * at + 8 * i, 8 * at + 8 * n));
            lemma_pow2_adds(8, m);
            bits::lemma_pow2_monotone(m + 8, 64);
            assert(8 + m == 8 * (n - (i - 1)));
        }
        w = w * 256 + b as u64;
        i = i - 1;
    }
    proof {
        bits::lemma_bits_of_pad(w as nat, (8 * n) as nat, (64 - 8 * n) as nat);
    }
    w
}

/// Reads the bits of a byte string from its last bit to its first, and zeros after that.
pub struct BitReaderReversed<'s> {
    index: usize,
    bits_consumed: u8,
    extra_bits: usize,
    source: &'s [u8],
    bit_container: u64,
}

/// The longest byte string that a backward reader takes.
pub const MAX_REVERSED_SOURCE: usize = 0x400_0000;

impl<'s> BitReaderReversed<'s> {
    closed spec fn all(&self) -> Seq<bool> {
        bits::byte_bits(self.source@)
    }

    /// The stream position of the lowest bit of the container.
    closed spec fn base(&self) -> int {
        8 * self.index - self.extra_bits
    }

    closed spec fn position(&self) -> int {
        self.base() + 64 - self.bits_consumed
    }

    /// The unread bits.
    pub closed spec fn view(&self) -> RevBits {
        rev_at(self.all(), self.position())
    }

    pub closed spec fn wf(&self) -> bool {
        &&& self.source@.len() <= MAX_REVERSED_SOURCE
        &&& self.index <= self.source@.len()
        &&& self.bits_consumed <= 64
        &&& self.position() <= 8 * self.source@.len()
        &&& self.extra_bits > 0 ==> self.index == 0
        &&& self.bits_consumed < 64 ==> self.base() + 64 <= 8 * self.source@.len() || self.index
            == 0
        &&& self.index < self.source@.len() && self.extra_bits == 0 ==> self.index + 8
            <= self.source@.len()
        &&& self.index == self.source@.len() && self.index > 0 ==> self.bits_consumed == 64
        &&& forall|i: int|
            0 <= i < 64 - self.bits_consumed ==> #[trigger] bits::bits_of(
                self.bit_container as nat,
                64,
            )[i] == ext_bit(self.all(), self.base() + i)
    }

    pub fn new(source: &'s [u8]) -> (r: BitReaderReversed<'s>)
        requires
            source@.len() <= MAX_REVERSED_SOURCE,
        ensures
            r.wf(),
            r@ == RevBits::of_bytes(source@),
            r@.wf(),
    {
        let r = BitReaderReversed {
            index: source.len(),
            bits_consumed: 64,
            source,
            bit_container: 0,
            extra_bits: 0,
        };
        assert(r.all().take(r.position()) =~= r.all());
        r
    }

    /// The number of unread bits; negative once zeros past the first bit were read.
    pub fn bits_remaining(&self) -> (n: isize)
        requires
            self.wf(),
            self@.debt <= 0x1000_0000,
        ensures
            n == self@.remaining(),
    {
        proof {
            lemma_rev_window(self.all(), self.position(), 0);
        }
        self.index as isize * 8 + (64 - self.bits_consumed as isize) - self.extra_bits as isize
    }

    /// Fills the container so that fewer than 8 of its bits are consumed.
    fn refill(&mut self)
        requires
            old(self).wf(),
            old(self)@.debt <= 0x1000_0000,
        ensures
            final(self).wf(),
            final(self)@ == old(self)@,
            final(self).bits_consumed < 8,
    {
        let bytes_consumed = self.bits_consumed as usize / 8;
        if bytes_consumed == 0 {
            return ;
        }
        let ghost old_self = *self;
        let ghost p = self.position();
        let ghost all = self.all();
        if self.index >= bytes_consumed {
            self.index = self.index - bytes_consumed;
            self.bits_consumed = self.bits_consumed % 8;
            self.bit_container = le_word(self.source, self.index);
            proof {
                assert forall|i: int| 0 <= i < 64 - self.bits_consumed implies #[trigger] bits::bits_of(
                    self.bit_container as nat,
                    64,
                )[i] == ext_bit(self.all(), self.base() + i) by {
                    assert(bits::bits_of(self.bit_container as nat, 64)[i] == all.subrange(
                        8 * self.index,
                        8 * self.index + 64,
                    )[i]);
                }
            }
        } else if self.index > 0 {
            let len = self.source.len();
            let n = if len >= 8 {
                8
            } else {
                len
            };
            let word = le_word_partial(self.source, 0, n);
            let left = self.bits_consumed - 8 * (self.index as u8);
            self.bits_consumed = 0;
            self.index = 0;
            self.bit_container = shift_left_truncated(word, left as u32);
            self.extra_bits = self.extra_bits + left as usize;
            proof {
                assert forall|i: int| 0 <= i < 64 implies #[trigger] bits::bits_of(
                    self.bit_container as nat,
                    64,
                )[i] == ext_bit(self.all(), self.base() + i) by {
                    if i >= left {
                        assert(bits::bits_of(self.bit_container as nat, 64)[i] == bits::bits_of(
                            word as nat,
                            64,
                        )[i - left]);
                        assert(bits::bits_of(word as nat, 64)[i - left] == (all.subrange(
                            0,
                            8 * n as int,
                        ) + bits::zeros((64 - 8 * n) as nat))[i - left]);
                    }
                }
            }
        } else if self.bits_consumed < 64 {
            let left = self.bits_consumed;
            let word = self.bit_container;
            self.bit_container = shift_left_truncated(word, left as u32);
            self.extra_bits = self.extra_bits + left as usize;
            self.bits_consumed = 0;
            proof {
                assert forall|i: int| 0 <= i < 64 implies #[trigger] bits::bits_of(
                    self.bit_container as nat,
                    64,
                )[i] == ext_bit(self.all(), self.base() + i) by {
                    if i >= left {
                        assert(bits::bits_of(self.bit_container as nat, 64)[i] == bits::bits_of(
                            word as nat,
                            64,
                        )[i - left]);
                    }
                }
            }
        } else {
            self.extra_bits = self.extra_bits + self.bits_consumed as usize;
            self.bits_consumed = 0;
            self.bit_container = 0;
            proof {
                lemma2_to64();
                bits::lemma_bits_of_pad(0, 0, 64);
                assert(bits::bits_of(0, 64) =~= bits::zeros(64));
            }
        }
        assert(self.position() == p);
    }

    /// The number in the next `n` bits, which the container holds.
    fn peek_bits(&self, n: u8) -> (v: u64)
        requires
            self.wf(),
            self.bits_consumed + n <= 64,
            n < 64,
        ensures
            v == self@.peek(n as nat),
            (v as nat) < pow2(n as nat),
    {
        proof {
            lemma_rev_window(self.all(), self.position(), n as nat);
            let k = (64 - self.bits_consumed - n) as nat;
            let w = ext_window(self.all(), self.position(), n as nat);
            bits::lemma_val_bound(w);
            if n > 0 {
                bits::lemma_bits_of_subrange(self.bit_container as nat, 64, k, n as nat);
                let b = bits::bits_of(self.bit_container as nat, 64);
                assert(b.subrange(k as int, (k + n) as int) =~= w) by {
                    assert forall|i: int| 0 <= i < n implies b.subrange(k as int, (k + n) as int)[i]
                        == w[i] by {
                        assert(b[k + i] == ext_bit(self.all(), self.base() + k + i));
                    }
                }
                bits::lemma_val_bits_of(self.bit_container as nat / pow2(k), n as nat);
            } else {
                assert(bits::val(w) == 0);
            }
        }
        if n == 0 {
            return 0;
        }
        let shift_by = 64 - self.bits_consumed - n;
        low_bits(shift_right(self.bit_container, shift_by as u32), n as u32)
    }

    /// Marks the next `n` bits of the container as read.
    fn consume(&mut self, n: u8)
        requires
            old(self).wf(),
            old(self).bits_consumed + n <= 64,
        ensures
            final(self).wf(),
            final(self)@ == old(self)@.skip(n as nat),
            final(self).bits_consumed == old(self).bits_consumed + n,
    {
        proof {
            lemma_rev_window(self.all(), self.position(), n as nat);
        }
        self.bits_consumed = self.bits_consumed + n;
    }

    /// Reads the next `n` bits as a number.
    pub fn get_bits(&mut self, n: u8) -> (v: u64)
        requires
            old(self).wf(),
            old(self)@.debt <= 0x1000_0000,
            n <= 56,
        ensures
            final(self).wf(),
            final(self)@ == old(self)@.skip(n as nat),
            v == old(self)@.peek(n as nat),
            (v as nat) < pow2(n as nat),
    {
        if self.bits_consumed + n > 64 {
            self.refill();
        }
        let value = self.peek_bits(n);
        self.consume(n);
        value
    }

    /// The numbers in the next `n1`, `n2` and `n3` bits, which the container holds.
    fn peek_bits_triple(&self, sum: u8, n1: u8, n2: u8, n3: u8) -> (r: (u64, u64, u64))
        requires
            self.wf(),
            sum == n1 + n2 + n3,
            sum <= 56,
            self.bits_consumed + sum <= 64,
        ensures
            r.0 == self@.peek(n1 as nat),
            r.1 == self@.skip(n1 as nat).peek(n2 as nat),
            r.2 == self@.skip(n1 as nat).skip(n2 as nat).peek(n3 as nat),
            (r.0 as nat) < pow2(n1 as nat),
            (r.1 as nat) < pow2(n2 as nat),
            (r.2 as nat) < pow2(n3 as nat),
    {
        let all_three = self.peek_bits(sum);
        proof {
            let all = self.all();
            let p = self.position();
            lemma_rev_window(all, p, n1 as nat);
            lemma_rev_window(all, p, sum as nat);
            lemma_rev_window(all, p - n1, n2 as nat);
            lemma_rev_window(all, p - n1 - n2, n3 as nat);
            lemma_peek_split(all, p, (n1 + n2) as nat, n3 as nat);
            lemma_peek_split(all, p, n1 as nat, n2 as nat);
            let v1 = bits::val(ext_window(all, p, n1 as nat));
            let v2 = bits::val(ext_window(all, p - n1, n2 as nat));
            let v3 = bits::val(ext_window(all, p - n1 - n2, n3 as nat));
            bits::lemma_val_bound(ext_window(all, p, n1 as nat));
            bits::lemma_val_bound(ext_window(all, p - n1, n2 as nat));
            bits::lemma_val_bound(ext_window(all, p - n1 - n2, n3 as nat));
            let q2 = pow2(n2 as nat);
            let q3 = pow2(n3 as nat);
            lemma_pow2_pos(n2 as nat);
            lemma_pow2_pos(n3 as nat);
            lemma_pow2_adds(n3 as nat, n2 as nat);
            assert(all_three == v3 + q3 * (v2 + q2 * v1));
            lemma_mul_is_commutative(q3 as int, (v2 + q2 * v1) as int);
            lemma_mul_is_commutative(q2 as int, v1 as int);
            lemma_fundamental_div_mod_converse(
                all_three as int,
                q3 as int,
                (v2 + q2 * v1) as int,
                v3 as int,
            );
            lemma_fundamental_div_mod_converse(
                (v2 + q2 * v1) as int,
                q2 as int,
                v1 as int,
                v2 as int,
            );
            lemma_div_denominator(all_three as int, q3 as int, q2 as int);
            lemma_small_mod(v1, pow2(n1 as nat));
        }
        let val1 = low_bits(shift_right(all_three, (n3 + n2) as u32), n1 as u32);
        let val2 = low_bits(shift_right(all_three, n3 as u32), n2 as u32);
        let val3 = low_bits(all_three, n3 as u32);
        (val1, val2, val3)
    }

    /// Reads three numbers of `n1`, `n2` and `n3` bits, one after the other.
    pub fn get_bits_triple(&mut self, n1: u8, n2: u8, n3: u8) -> (r: (u64, u64, u64))
        requires
            old(self).wf(),
            old(self)@.debt <= 0x0800_0000,
            n1 <= 56,
            n2 <= 56,
            n3 <= 56,
        ensures
            final(self).wf(),
            final(self)@ == old(self)@.skip(n1 as nat).skip(n2 as nat).skip(n3 as nat),
            r.0 == old(self)@.peek(n1 as nat),
            r.1 == old(self)@.skip(n1 as nat).peek(n2 as nat),
            r.2 == old(self)@.skip(n1 as nat).skip(n2 as nat).peek(n3 as nat),
            (r.0 as nat) < pow2(n1 as nat),
            (r.1 as nat) < pow2(n2 as nat),
            (r.2 as nat) < pow2(n3 as nat),
    {
        let sum = n1 + n2 + n3;
        if sum <= 56 {
            self.refill();
            let triple = self.peek_bits_triple(sum, n1, n2, n3);
            proof {
                lemma_rev_window(self.all(), self.position(), n1 as nat);
                lemma_rev_window(self.all(), self.position(), sum as nat);
                lemma_rev_window(self.all(), self.position() - n1, n2 as nat);
                lemma_rev_window(self.all(), self.position() - n1 - n2, n3 as nat);
            }
            self.consume(sum);
            return triple;
        }
        let a = self.get_bits(n1);
        let b = self.get_bits(n2);
        let c = self.get_bits(n3);
        (a, b, c)
    }
}

/// Skips the zero bits and the final 1 bit that close a backward stream; `skipped`
/// bits were skipped already.  The 1 bit has to come within the first eight bits.
pub open spec fn skip_padding_from(r: RevBits, skipped: nat) -> Result<RevBits, DecodeError>
    decreases 9 - skipped,
{
    if skipped >= 9 {
        Err(DecodeError::ExtraPadding { skipped: 9 })
    } else if r.peek(1) == 1 && skipped < 8 {
        Ok(r.skip(1))
    } else {
        skip_padding_from(r.skip(1), skipped + 1)
    }
}

/// What is unread of a backward stream once its closing bits are skipped.
pub open spec fn stream_start(src: Seq<u8>) -> Result<RevBits, DecodeError> {
    skip_padding_from(RevBits::of_bytes(src), 0)
}

/// Skips the closing bits of a backward stream.
pub fn skip_padding(br: &mut BitReaderReversed<'_>) -> (r: Result<(), DecodeError>)
    requires
        old(br).wf(),
        old(br)@.debt <= 1000,
    ensures
        final(br).wf(),
        match r {
            Ok(_) => skip_padding_from(old(br)@, 0) == Ok::<RevBits, DecodeError>(final(br)@)
                && final(br)@.debt <= old(br)@.debt + 9,
            Err(e) => {
                &&& skip_padding_from(old(br)@, 0) == Err::<RevBits, DecodeError>(e)
                &&& old(br)@.wf() ==> final(br)@ == old(br)@.skip(9)
            },
        },
{
    proof {
        if br@.wf() {
            lemma_skip_none(br@);
        }
    }
    let mut skipped: u32 = 0;
    let ghost whole = skip_padding_from(br@, 0);
    while skipped < 9
        invariant
            br.wf(),
            skipped <= 9,
            br@.debt <= old(br)@.debt + skipped,
            old(br)@.debt <= 1000,
            old(br)@.wf() ==> br@ == old(br)@.skip(skipped as nat),
            whole == skip_padding_from(old(br)@, 0),
            whole == skip_padding_from(br@, skipped as nat),
        decreases 9 - skipped,
    {
        proof {
            if old(br)@.wf() {
                lemma_skip_skip(old(br)@, skipped as nat, 1);
            }
        }
        let v = br.get_bits(1);
        if v == 1 && skipped < 8 {
            return Ok(());
        }
        skipped = skipped + 1;
    }
    Err(DecodeError::ExtraPadding { skipped })
}

/// Every `RevBits` that a reader can reach is a position of a stream.
pub proof fn lemma_rev_normal(r: RevBits)
    requires
        r.wf(),
    ensures
        r == rev_at(r.bits, r.remaining()),
{
    assert(r =~= rev_at(r.bits, r.remaining()));
}

pub proof fn lemma_skip(r: RevBits, n: nat)
    requires
        r.wf(),
    ensures
        r.skip(n).wf(),
        r.skip(n).remaining() == r.remaining() - n,
        r.skip(n).debt <= r.debt + n,
        r.peek(n) < pow2(n),
{
    lemma_rev_normal(r);
    lemma_rev_window(r.bits, r.remaining(), n);
    bits::lemma_val_bound(ext_window(r.bits, r.remaining(), n));
}

proof fn lemma_skip_none(r: RevBits)
    requires
        r.wf(),
    ensures
        r.skip(0) == r,
{
    lemma_rev_normal(r);
    lemma_rev_window(r.bits, r.remaining(), 0);
}

pub proof fn lemma_skip_skip(r: RevBits, a: nat, b: nat)
    requires
        r.wf(),
    ensures
        r.skip(a).skip(b) == r.skip(a + b),
{
    lemma_rev_normal(r);
    lemma_rev_window(r.bits, r.remaining(), a);
    lemma_rev_window(r.bits, r.remaining(), a + b);
    lemma_rev_window(r.bits, r.remaining() - a, b);
}

/// Peeking at `a + b` bits joins the next `a` bits and the `b` bits after them.
pub proof fn lemma_peek_join(r: RevBits, a: nat, b: nat)
    requires
        r.wf(),
    ensures
        r.peek(a + b) == r.skip(a).peek(b) + pow2(b) * r.peek(a),
{
    lemma_rev_normal(r);
    lemma_rev_window(r.bits, r.remaining(), a);
    lemma_rev_window(r.bits, r.remaining(), a + b);
    lemma_rev_window(r.bits, r.remaining() - a, b);
    lemma_peek_split(r.bits, r.remaining(), a, b);
}

/// Bits written last are read first.
pub proof fn lemma_read_back(b: Seq<bool>, v: nat, n: nat)
    ensures
        (RevBits { bits: b + bits::bits_of(v, n), debt: 0 }).peek(n) == v % pow2(n),
        (RevBits { bits: b + bits::bits_of(v, n), debt: 0 }).skip(n) == (RevBits {
            bits: b,
            debt: 0,
        }),
{
    let all = b + bits::bits_of(v, n);
    assert(all.subrange(all.len() - n, all.len() as int) =~= bits::bits_of(v, n));
    assert(all.take(all.len() - n) =~= b);
    bits::lemma_val_bits_of(v, n);
}

pub proof fn lemma_start_wf(r: RevBits, skipped: nat)
    requires
        r.wf(),
    ensures
        skip_padding_from(r, skipped) matches Ok(s) ==> s.wf(),
    decreases 9 - skipped,
{
    if skipped < 9 {
        lemma_skip(r, 1);
        lemma_start_wf(r.skip(1), skipped + 1);
    }
}

/// The closing bits of a stream are skipped exactly.
pub proof fn lemma_stream_start(b: Seq<bool>)
    ensures
        stream_start(bits::backward_stream(b)) == Ok::<RevBits, DecodeError>(
            RevBits { bits: b, debt: 0 },
        ),
{
    let bytes = bits::backward_stream(b);
    bits::lemma_pack(b + seq![true]);
    assert(8 * bytes.len() - (b.len() + 1) == 7 - b.len() % 8);
    lemma_padding(b, (7 - b.len() % 8) as nat, 0);
}

proof fn lemma_padding(b: Seq<bool>, z: nat, skipped: nat)
    requires
        z + skipped < 8,
    ensures
        skip_padding_from(
            RevBits { bits: b + seq![true] + bits::zeros(z), debt: 0 },
            skipped,
        ) == Ok::<RevBits, DecodeError>(RevBits { bits: b, debt: 0 }),
    decreases z,
{
    let all = b + seq![true] + bits::zeros(z);
    let r = RevBits { bits: all, debt: 0 };
    let top = all.subrange(all.len() - 1, all.len() as int);
    assert(top.drop_first() =~= Seq::<bool>::empty());
    assert(bits::val(top.drop_first()) == 0);
    if z == 0 {
        assert(top[0] == true);
        assert(all.take(all.len() - 1) =~= b);
    } else {
        assert(top[0] == false);
        assert(all.take(all.len() - 1) =~= b + seq![true] + bits::zeros((z - 1) as nat));
        lemma_padding(b, (z - 1) as nat, skipped + 1);
    }
}

/// A left shift that drops the bits shifted out.
fn shift_left_truncated(v: u64, n: u32) -> (r: u64)
    requires
        n < 64,
    ensures
        forall|i: int|
            0 <= i < 64 ==> #[trigger] bits::bits_of(r as nat, 64)[i] == (i >= n && bits::bits_of(
                v as nat,
                64,
            )[i - n]),
{
    if n == 0 {
        return v;
    }
    let low = low_bits(v, 64 - n);
    proof {
        lemma2_to64_rest();
        let m = (64 - n) as nat;
        lemma_pow2_pos(n as nat);
        lemma_pow2_adds(n as nat, m);
        lemma_mul_is_commutative(pow2(n as nat) as int, low as int);
        assert(low * pow2(n as nat) < pow2(64)) by (nonlinear_arith)
            requires
                low < pow2(m),
                pow2(n as nat) > 0,
                pow2(n as nat) * pow2(m) == pow2(64),
        ;
        lemma_u64_shl_is_mul(low, n as u64);
        bits::lemma_bits_of_join(0, low as nat, n as nat, m);
        bits::lemma_bits_of_mod(v as nat, m);
        lemma2_to64();
        bits::lemma_bits_of_pad(0, 0, n as nat);
        assert(bits::bits_of(0, n as nat) =~= bits::zeros(n as nat));
        let r = low << (n as u64);
        assert forall|i: int| 0 <= i < 64 implies #[trigger] bits::bits_of(r as nat, 64)[i] == (i
            >= n && bits::bits_of(v as nat, 64)[i - n]) by {
            assert(bits::bits_of(r as nat, 64)[i] == (bits::zeros(n as nat) + bits::bits_of(
                v as nat,
                m,
            ))[i]);
        }
    }
    low << (n as u64)
}

} // verus!
