//! Bit sequences: the mathematical model behind every bit stream of the format.
//!
//! A number of `n` bits is modelled by the sequence of its bits, least
//! significant bit first.  A byte string is modelled by the concatenation of the
//! bits of its bytes, in the same order.
use vstd::arithmetic::div_mod::*;
use vstd::arithmetic::mul::*;
use vstd::arithmetic::power2::*;
use vstd::bits::*;
use vstd::prelude::*;

verus! {

/// The low `n` bits of `v`, least significant first.
pub open spec fn bits_of(v: nat, n: nat) -> Seq<bool> {
    Seq::new(n, |i: int| (v / pow2(i as nat)) % 2 == 1)
}

/// The number whose bits, least significant first, are `s`.
pub open spec fn val(s: Seq<bool>) -> nat
    decreases s.len(),
{
    if s.len() == 0 {
        0
    } else {
        (if s[0] {
            1nat
        } else {
            0nat
        }) + 2 * val(s.drop_first())
    }
}

/// The bits of a byte string: byte 0 first, each byte least significant bit first.
pub open spec fn byte_bits(s: Seq<u8>) -> Seq<bool> {
    Seq::new((8 * s.len()) as nat, |i: int| ((s[i / 8] as nat) / pow2((i % 8) as nat)) % 2 == 1)
}

/// `n` zero bits.
pub open spec fn zeros(n: nat) -> Seq<bool> {
    Seq::new(n, |i: int| false)
}

pub proof fn lemma_val_bound(s: Seq<bool>)
    ensures
        val(s) < pow2(s.len()),
    decreases s.len(),
{
    if s.len() == 0 {
        lemma2_to64();
    } else {
        lemma_val_bound(s.drop_first());
        lemma_pow2_unfold(s.len());
    }
}

pub proof fn lemma_val_concat(a: Seq<bool>, b: Seq<bool>)
    ensures
        val(a + b) == val(a) + pow2(a.len()) * val(b),
    decreases a.len(),
{
    if a.len() == 0 {
        lemma2_to64();
        assert(a + b =~= b);
    } else {
        lemma_val_concat(a.drop_first(), b);
        assert((a + b).drop_first() =~= a.drop_first() + b);
        lemma_pow2_unfold(a.len());
        let p = pow2((a.len() - 1) as nat);
        assert(2 * (p * val(b)) == (2 * p) * val(b)) by (nonlinear_arith);
    }
}

pub proof fn lemma_val_zeros(n: nat)
    ensures
        val(zeros(n)) == 0,
    decreases n,
{
    if n > 0 {
        assert(zeros(n).drop_first() =~= zeros((n - 1) as nat));
        lemma_val_zeros((n - 1) as nat);
    }
}

/// Dropping the lowest bit halves the number.
pub proof fn lemma_bits_of_drop_first(v: nat, n: nat)
    requires
        n > 0,
    ensures
        bits_of(v, n).drop_first() == bits_of(v / 2, (n - 1) as nat),
        bits_of(v, n)[0] == (v % 2 == 1),
{
    lemma2_to64();
    assert forall|i: int| 0 <= i < n - 1 implies bits_of(v, n).drop_first()[i] == bits_of(
        v / 2,
        (n - 1) as nat,
    )[i] by {
        lemma_pow2_unfold((i + 1) as nat);
        lemma_pow2_pos(i as nat);
        lemma_div_denominator(v as int, 2, pow2(i as nat) as int);
    }
    assert(bits_of(v, n).drop_first() =~= bits_of(v / 2, (n - 1) as nat));
    assert(v / pow2(0) == v);
}

pub proof fn lemma_val_bits_of(v: nat, n: nat)
    ensures
        val(bits_of(v, n)) == v % pow2(n),
    decreases n,
{
    lemma2_to64();
    if n == 0 {
        assert(v % 1 == 0);
    } else {
        lemma_bits_of_drop_first(v, n);
        lemma_val_bits_of(v / 2, (n - 1) as nat);
        let p = pow2((n - 1) as nat);
        lemma_pow2_unfold(n);
        lemma_pow2_pos((n - 1) as nat);
        // v % (2p) == v % 2 + 2 * ((v / 2) % p)
        lemma_mod_breakdown(v as int, 2, p as int);
    }
}

pub proof fn lemma_val_bits_of_small(v: nat, n: nat)
    requires
        v < pow2(n),
    ensures
        val(bits_of(v, n)) == v,
{
    lemma_val_bits_of(v, n);
    lemma_small_mod(v, pow2(n));
}

pub proof fn lemma_bits_of_val(s: Seq<bool>)
    ensures
        bits_of(val(s), s.len()) == s,
    decreases s.len(),
{
    if s.len() == 0 {
        assert(bits_of(val(s), s.len()) =~= s);
    } else {
        let t = s.drop_first();
        lemma_bits_of_val(t);
        lemma_bits_of_drop_first(val(s), s.len());
        let b = bits_of(val(s), s.len());
        assert(val(s) / 2 == val(t));
        assert forall|i: int| 0 <= i < s.len() implies b[i] == s[i] by {
            if i > 0 {
                assert(b[i] == b.drop_first()[i - 1]);
                assert(s[i] == t[i - 1]);
            }
        }
        assert(b =~= s);
    }
}

/// Two bit sequences of one length with one value are the same sequence.
pub proof fn lemma_val_injective(a: Seq<bool>, b: Seq<bool>)
    requires
        a.len() == b.len(),
        val(a) == val(b),
    ensures
        a == b,
{
    lemma_bits_of_val(a);
    lemma_bits_of_val(b);
}

/// A window of the bits of a number.
pub proof fn lemma_bits_of_subrange(v: nat, n: nat, k: nat, m: nat)
    requires
        k + m <= n,
    ensures
        bits_of(v, n).subrange(k as int, (k + m) as int) == bits_of(v / pow2(k), m),
{
    let a = bits_of(v, n).subrange(k as int, (k + m) as int);
    let b = bits_of(v / pow2(k), m);
    assert forall|i: int| 0 <= i < m implies a[i] == b[i] by {
        lemma_pow2_adds(k, i as nat);
        lemma_pow2_pos(k);
        lemma_pow2_pos(i as nat);
        lemma_div_denominator(v as int, pow2(k) as int, pow2(i as nat) as int);
    }
    assert(a =~= b);
}

/// Splitting the bits of a number at position `k`.
pub proof fn lemma_bits_of_split(v: nat, k: nat, m: nat)
    ensures
        bits_of(v, k + m) == bits_of(v, k) + bits_of(v / pow2(k), m),
{
    lemma_bits_of_subrange(v, k + m, k, m);
    let a = bits_of(v, k + m);
    assert(a =~= bits_of(v, k) + a.subrange(k as int, (k + m) as int));
}

/// Joining: the bits of `a + 2^k * b`.
pub proof fn lemma_bits_of_join(a: nat, b: nat, k: nat, m: nat)
    requires
        a < pow2(k),
    ensures
        bits_of(a + pow2(k) * b, k + m) == bits_of(a, k) + bits_of(b, m),
{
    let v = a + pow2(k) * b;
    lemma_bits_of_split(v, k, m);
    lemma_pow2_pos(k);
    lemma_mul_is_commutative(pow2(k) as int, b as int);
    assert(v == b * pow2(k) + a);
    lemma_fundamental_div_mod_converse(v as int, pow2(k) as int, b as int, a as int);
    // bits_of(v, k) == bits_of(a, k)
    lemma_bits_of_mod(v, k);
    assert(v % pow2(k) == a);
}

/// Only the residue modulo `2^n` matters for the low `n` bits.
pub proof fn lemma_bits_of_mod(v: nat, n: nat)
    ensures
        bits_of(v, n) == bits_of(v % pow2(n), n),
{
    lemma_val_bits_of(v, n);
    lemma_val_bits_of(v % pow2(n), n);
    lemma_pow2_pos(n);
    lemma_mod_twice(v as int, pow2(n) as int);
    lemma_val_injective(bits_of(v, n), bits_of(v % pow2(n), n));
}

/// High bits of a small number are zero.
pub proof fn lemma_bits_of_pad(v: nat, n: nat, m: nat)
    requires
        v < pow2(n),
    ensures
        bits_of(v, n + m) == bits_of(v, n) + zeros(m),
{
    lemma_bits_of_join(v, 0, n, m);
    assert(pow2(n) * 0 == 0) by (nonlinear_arith);
    assert(bits_of(0, m) =~= zeros(m)) by {
        assert forall|i: int| 0 <= i < m implies bits_of(0, m)[i] == false by {
            lemma_pow2_pos(i as nat);
            lemma_basic_div(0, pow2(i as nat) as int);
        }
    }
}

pub proof fn lemma_byte_bits_concat(a: Seq<u8>, b: Seq<u8>)
    ensures
        byte_bits(a + b) == byte_bits(a) + byte_bits(b),
{
    assert(byte_bits(a + b) =~= byte_bits(a) + byte_bits(b));
}

pub proof fn lemma_byte_bits_single(b: u8)
    ensures
        byte_bits(seq![b]) == bits_of(b as nat, 8),
{
    assert(byte_bits(seq![b]) =~= bits_of(b as nat, 8));
}

pub proof fn lemma_byte_bits_push(a: Seq<u8>, b: u8)
    ensures
        byte_bits(a.push(b)) == byte_bits(a) + bits_of(b as nat, 8),
{
    assert(a.push(b) =~= a + seq![b]);
    lemma_byte_bits_concat(a, seq![b]);
    lemma_byte_bits_single(b);
}

pub proof fn lemma_byte_bits_subrange(s: Seq<u8>, i: int, j: int)
    requires
        0 <= i <= j <= s.len(),
    ensures
        byte_bits(s.subrange(i, j)) == byte_bits(s).subrange(8 * i, 8 * j),
{
    assert(byte_bits(s.subrange(i, j)) =~= byte_bits(s).subrange(8 * i, 8 * j));
}

/// Byte strings with one bit sequence are one byte string.
pub proof fn lemma_byte_bits_injective(a: Seq<u8>, b: Seq<u8>)
    requires
        byte_bits(a) == byte_bits(b),
    ensures
        a == b,
{
    assert(byte_bits(a).len() == 8 * a.len());
    assert(byte_bits(b).len() == 8 * b.len());
    assert forall|i: int| 0 <= i < a.len() implies a[i] == b[i] by {
        lemma_byte_bits_subrange(a, i, i + 1);
        lemma_byte_bits_subrange(b, i, i + 1);
        assert(a.subrange(i, i + 1) =~= seq![a[i]]);
        assert(b.subrange(i, i + 1) =~= seq![b[i]]);
        lemma_byte_bits_single(a[i]);
        lemma_byte_bits_single(b[i]);
        lemma2_to64();
        lemma_val_bits_of_small(a[i] as nat, 8);
        lemma_val_bits_of_small(b[i] as nat, 8);
    }
    assert(a =~= b);
}

/// Packs bits into bytes, the first bit lowest; the last byte is filled up with zeros.
pub open spec fn pack(b: Seq<bool>) -> Seq<u8> {
    Seq::new(
        (b.len() + 7) as nat / 8,
        |i: int|
            val(
                b.subrange(
                    8 * i,
                    if 8 * i + 8 <= b.len() {
                        8 * i + 8
                    } else {
                        b.len() as int
                    },
                ),
            ) as u8,
    )
}

pub proof fn lemma_pack(b: Seq<bool>)
    ensures
        pack(b).len() == (b.len() + 7) / 8,
        byte_bits(pack(b)) == b + zeros((8 * pack(b).len() - b.len()) as nat),
{
    let p = pack(b);
    let all = b + zeros((8 * p.len() - b.len()) as nat);
    assert(byte_bits(p).len() == all.len());
    assert forall|i: int| 0 <= i < all.len() implies byte_bits(p)[i] == all[i] by {
        let k = i / 8;
        let part = all.subrange(8 * k, 8 * k + 8);
        let end = if 8 * k + 8 <= b.len() {
            8 * k + 8
        } else {
            b.len() as int
        };
        let own = b.subrange(8 * k, end);
        lemma_val_zeros((8 * k + 8 - end) as nat);
        lemma_val_concat(own, zeros((8 * k + 8 - end) as nat));
        assert(part =~= own + zeros((8 * k + 8 - end) as nat));
        lemma_val_bound(part);
        lemma2_to64();
        assert(val(part) == val(own));
        lemma_bits_of_val(part);
        assert(p[k] as nat == val(part));
        assert(bits_of(p[k] as nat, 8)[i % 8] == part[i % 8]);
    }
    assert(byte_bits(p) =~= all);
}

/// The bytes of a stream that is read backwards: a 1 bit closes it.
pub open spec fn backward_stream(b: Seq<bool>) -> Seq<u8> {
    pack(b + seq![true])
}

/// Packed bits are told by their bits.
pub proof fn lemma_pack_unique(bytes: Seq<u8>, b: Seq<bool>)
    requires
        bytes.len() == (b.len() + 7) / 8,
        byte_bits(bytes) == b + zeros((8 * bytes.len() - b.len()) as nat),
    ensures
        bytes == pack(b),
{
    lemma_pack(b);
    lemma_byte_bits_injective(bytes, pack(b));
}

// ---------------------------------------------------------------------------
// Machine words
// ---------------------------------------------------------------------------

pub proof fn lemma_pow2_u64(n: nat)
    requires
        n < 64,
    ensures
        0 < pow2(n) <= 0x8000_0000_0000_0000,
        (1u64 << (n as u64)) == pow2(n),
{
    lemma_pow2_pos(n);
    lemma2_to64();
    lemma2_to64_rest();
    if n < 63 {
        lemma_pow2_strictly_increases(n, 63);
    }
    lemma_u64_shl_is_mul(1, n as u64);
}

/// `2^n` as a machine word.
pub fn pow2_u64(n: u32) -> (r: u64)
    requires
        n < 64,
    ensures
        r == pow2(n as nat),
{
    proof {
        lemma_pow2_u64(n as nat);
    }
    1u64 << (n as u64)
}

pub proof fn lemma_pow2_u32(n: nat)
    requires
        n < 32,
    ensures
        0 < pow2(n) <= 0x8000_0000,
        (1u32 << (n as u32)) == pow2(n),
{
    lemma_pow2_pos(n);
    lemma2_to64();
    lemma2_to64_rest();
    if n < 31 {
        lemma_pow2_strictly_increases(n, 31);
    }
    lemma_u32_shl_is_mul(1, n as u32);
}

/// `2^n` as a 32-bit machine word.
pub fn pow2_u32(n: u32) -> (r: u32)
    requires
        n < 32,
    ensures
        r == pow2(n as nat),
{
    proof {
        lemma_pow2_u32(n as nat);
    }
    1u32 << n
}

/// The low `n` bits of a word.
pub fn low_bits(v: u64, n: u32) -> (r: u64)
    requires
        n < 64,
    ensures
        r == v as nat % pow2(n as nat),
        r < pow2(n as nat),
{
    proof {
        lemma_pow2_u64(n as nat);
        lemma_u64_low_bits_mask_is_mod(v, n as nat);
        lemma_mod_bound(v as int, pow2(n as nat) as int);
    }
    v & (pow2_u64(n) - 1)
}

/// A logical right shift.
pub fn shift_right(v: u64, n: u32) -> (r: u64)
    requires
        n < 64,
    ensures
        r == v as nat / pow2(n as nat),
{
    proof {
        lemma_u64_shr_is_div(v, n as u64);
    }
    v >> (n as u64)
}

/// The position of the highest set bit of a positive number.
pub open spec fn high_bit(v: nat) -> nat
    decreases v,
{
    if v <= 1 {
        0
    } else {
        1 + high_bit(v / 2)
    }
}

pub proof fn lemma_high_bit(v: nat)
    requires
        v > 0,
    ensures
        pow2(high_bit(v)) <= v < pow2(high_bit(v) + 1),
    decreases v,
{
    lemma2_to64();
    if v > 1 {
        lemma_high_bit(v / 2);
        lemma_pow2_unfold(high_bit(v));
        lemma_pow2_unfold(high_bit(v) + 1);
    }
}

pub proof fn lemma_high_bit_unique(v: nat, k: nat)
    requires
        pow2(k) <= v < pow2(k + 1),
    ensures
        high_bit(v) == k,
{
    lemma_pow2_pos(k);
    lemma_high_bit(v);
    let h = high_bit(v);
    if h < k {
        if h + 1 < k {
            lemma_pow2_strictly_increases(h + 1, k);
        }
    } else if k < h {
        if k + 1 < h {
            lemma_pow2_strictly_increases(k + 1, h);
        }
    }
}

pub proof fn lemma_pow2_monotone(a: nat, b: nat)
    requires
        a <= b,
    ensures
        pow2(a) <= pow2(b),
{
    if a < b {
        lemma_pow2_strictly_increases(a, b);
    }
}

/// The position of the highest set bit.
pub fn high_bit_u64(v: u64) -> (r: u32)
    requires
        v > 0,
    ensures
        r == high_bit(v as nat),
        r < 64,
{
    let mut x: u64 = v;
    let mut r: u32 = 0;
    proof {
        lemma2_to64_rest();
        lemma_high_bit(v as nat);
        if high_bit(v as nat) >= 64 {
            lemma_pow2_monotone(64, high_bit(v as nat));
        }
    }
    while x > 1
        invariant
            x > 0,
            r + high_bit(x as nat) == high_bit(v as nat),
            high_bit(v as nat) < 64,
        decreases x,
    {
        x = x / 2;
        r = r + 1;
    }
    r
}

} // verus!
