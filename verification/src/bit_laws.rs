//! What numbers are as bytes and as bits, and in what order bits are read.
use crate::bitreader;
use crate::bitreader::RevBits;
use crate::bits;
use crate::bytes;
use crate::error::DecodeError;
use vstd::arithmetic::div_mod::*;
use vstd::arithmetic::power2::*;
use vstd::prelude::*;

verus! {

/// Digit `i` of `v` in base two.
pub open spec fn digit(v: nat, i: int) -> int {
    (v / pow2(i as nat)) as int % 2
}

/// Bit `i` of a byte string: bit `i % 8` of byte `i / 8`; bits in front of it are zeros.
pub open spec fn bit_at(src: Seq<u8>, i: int) -> int {
    if i < 0 {
        0
    } else {
        digit(src[i / 8] as nat, i % 8)
    }
}

proof fn lemma_digit(s: Seq<bool>, i: int)
    requires
        0 <= i < s.len(),
    ensures
        (digit(bits::val(s), i) == 1) == s[i],
        digit(bits::val(s), i) == 0 || digit(bits::val(s), i) == 1,
{
    bits::lemma_bits_of_val(s);
    assert(bits::bits_of(bits::val(s), s.len())[i] == s[i]);
    lemma_mod_bound((bits::val(s) / pow2(i as nat)) as int, 2);
}

// ---------------------------------------------------------------------------
// Bytes
// ---------------------------------------------------------------------------

/// Byte `i` of a number in bytes is its digit `i` in base 256: the lowest comes first.
pub proof fn lemma_byte_of(v: nat, n: nat, i: int)
    requires
        0 <= i < n,
    ensures
        bytes::le_bytes(v, n).len() == n,
        bytes::le_bytes(v, n)[i] == (v / pow2((8 * i) as nat)) % 256,
    decreases n,
{
    lemma2_to64();
    bytes::lemma_le_len(v, n);
    bytes::lemma_le_len(v / 256, (n - 1) as nat);
    if i > 0 {
        lemma_byte_of(v / 256, (n - 1) as nat, i - 1);
        let k = (8 * (i - 1)) as nat;
        lemma_pow2_adds(8, k);
        lemma_pow2_pos(k);
        lemma_div_denominator(v as int, 256, pow2(k) as int);
        assert(bytes::le_bytes(v, n)[i] == bytes::le_bytes(v / 256, (n - 1) as nat)[i - 1]);
    } else {
        assert(v / pow2(0) == v);
    }
}

/// The number in bytes has them as its digits in base 256, and no others.
pub proof fn lemma_number_of(s: Seq<u8>, i: int)
    requires
        0 <= i < s.len(),
    ensures
        (bytes::le_value(s) / pow2((8 * i) as nat)) % 256 == s[i],
        bytes::le_value(s) < pow2(8 * s.len()),
    decreases s.len(),
{
    lemma2_to64();
    let v = bytes::le_value(s);
    let t = s.drop_first();
    let w = bytes::le_value(t);
    assert(v == s[0] + 256 * w);
    assert(v / 256 == w);
    assert(v % 256 == s[0]);
    if t.len() == 0 {
        assert(w == 0);
    }
    if t.len() > 0 {
        lemma_number_of(t, if i > 0 {
            i - 1
        } else {
            0
        });
    }
    lemma_pow2_adds(8, 8 * t.len());
    if i > 0 {
        let k = (8 * (i - 1)) as nat;
        lemma_pow2_adds(8, k);
        lemma_pow2_pos(k);
        lemma_div_denominator(v as int, 256, pow2(k) as int);
        assert(t[i - 1] == s[i]);
    } else {
        assert(v / pow2(0) == v);
    }
}

// ---------------------------------------------------------------------------
// Forward streams
// ---------------------------------------------------------------------------

/// A forward read takes bits from the lowest of the first byte on, and the first is the
/// lowest of the number.  It fails where it goes past the end.
pub proof fn lemma_forward(src: Seq<u8>, idx: nat, n: nat, i: int)
    requires
        n <= 64,
        0 <= i < n,
    ensures
        idx + n <= 8 * src.len() ==> {
            &&& bitreader::forward_read(src, idx, n) matches Ok(v)
            &&& v < pow2(n)
            &&& digit(v, i) == bit_at(src, idx + i)
        },
        idx + n > 8 * src.len() ==> bitreader::forward_read(src, idx, n) == Err::<
            nat,
            DecodeError,
        >(
            DecodeError::NotEnoughBits {
                wanted: n as usize,
                left: (8 * src.len() - idx) as usize,
            },
        ),
{
    if idx + n <= 8 * src.len() {
        let all = bits::byte_bits(src);
        let part = all.subrange(idx as int, idx as int + n);
        bits::lemma_val_bound(part);
        lemma_digit(part, i);
        assert(part[i] == all[idx + i]);
        lemma_mod_bound((src[(idx + i) / 8] as nat / pow2(((idx + i) % 8) as nat)) as int, 2);
    }
}

// ---------------------------------------------------------------------------
// Backward streams
// ---------------------------------------------------------------------------

/// A backward read takes bits from the highest of the last byte on, and the first is the
/// highest of the number: after `k` bits the next `n` are those below bit `8 * len - k`, and
/// those in front of the first byte are zeros.
pub proof fn lemma_backward(src: Seq<u8>, k: nat, n: nat, i: int)
    requires
        0 <= i < n,
    ensures
        ({
            let r = RevBits::of_bytes(src).skip(k);
            &&& r.remaining() == 8 * src.len() - k
            &&& r.peek(n) < pow2(n)
            &&& digit(r.peek(n), i) == bit_at(src, 8 * src.len() - k - n + i)
        }),
{
    let all = bits::byte_bits(src);
    let p = all.len() as int;
    assert(all.take(p) =~= all);
    assert(RevBits::of_bytes(src) == bitreader::rev_at(all, p));
    bitreader::lemma_rev_window(all, p, k);
    bitreader::lemma_rev_window(all, p - k, n);
    let w = bitreader::ext_window(all, p - k, n);
    bits::lemma_val_bound(w);
    lemma_digit(w, i);
    let at = p - k - n + i;
    assert(w[i] == bitreader::ext_bit(all, at));
    if at >= 0 {
        lemma_mod_bound((src[at / 8] as nat / pow2((at % 8) as nat)) as int, 2);
    }
}

/// Reading bits in two parts reads the same bits.
pub proof fn lemma_backward_parts(src: Seq<u8>, a: nat, b: nat)
    ensures
        RevBits::of_bytes(src).skip(a).skip(b) == RevBits::of_bytes(src).skip(a + b),
{
    bitreader::lemma_skip_skip(RevBits::of_bytes(src), a, b);
}

proof fn lemma_top_bit(src: Seq<u8>, k: nat)
    requires
        src.len() > 0,
        k < 8,
    ensures
        RevBits::of_bytes(src).skip(k).peek(1) == digit(src.last() as nat, 7 - k),
{
    lemma_backward(src, k, 1, 0);
    lemma2_to64();
    let v = RevBits::of_bytes(src).skip(k).peek(1);
    assert(v < 2);
    assert(v / pow2(0) == v);
    let at = 8 * src.len() - k - 1;
    assert(at / 8 == src.len() - 1);
    assert(at % 8 == 7 - k);
}

proof fn lemma_start_from(src: Seq<u8>, h: nat, k: nat)
    requires
        src.len() > 0,
        h <= 7,
        k <= 7 - h,
        pow2(h) <= src.last() < pow2(h + 1),
    ensures
        bitreader::skip_padding_from(RevBits::of_bytes(src).skip(k), k) == Ok::<
            RevBits,
            DecodeError,
        >(RevBits::of_bytes(src).skip((8 - h) as nat)),
    decreases 8 - k,
{
    let b = src.last() as nat;
    lemma_top_bit(src, k);
    lemma2_to64();
    bitreader::lemma_skip_skip(RevBits::of_bytes(src), k, 1);
    if k == 7 - h {
        lemma_pow2_unfold(h + 1);
        assert(b / pow2(h) == 1) by {
            lemma_fundamental_div_mod_converse(b as int, pow2(h) as int, 1, b - pow2(h));
        }
    } else {
        bits::lemma_pow2_monotone(h + 1, (7 - k) as nat);
        lemma_basic_div(b as int, pow2((7 - k) as nat) as int);
        lemma_start_from(src, h, k + 1);
    }
}

/// The last byte of a backward stream closes it: reading starts below its highest bit that
/// is set.
pub proof fn lemma_closing(src: Seq<u8>, h: nat)
    requires
        src.len() > 0,
        pow2(h) <= src.last() < pow2(h + 1),
    ensures
        bitreader::stream_start(src) == Ok::<RevBits, DecodeError>(
            RevBits::of_bytes(src).skip((8 - h) as nat),
        ),
{
    lemma2_to64();
    if h > 7 {
        bits::lemma_pow2_monotone(8, h);
    }
    let r = RevBits::of_bytes(src);
    assert(r.skip(0) == r) by {
        assert(r.bits.take(r.bits.len() as int) =~= r.bits);
    }
    lemma_start_from(src, h, 0);
}

proof fn lemma_zero_bits(src: Seq<u8>, k: nat)
    requires
        src.len() == 0 || src.last() == 0,
        k <= 9,
    ensures
        bitreader::skip_padding_from(RevBits::of_bytes(src).skip(k), k) == Err::<
            RevBits,
            DecodeError,
        >(DecodeError::ExtraPadding { skipped: 9 }),
    decreases 9 - k,
{
    if k < 9 {
        bitreader::lemma_skip_skip(RevBits::of_bytes(src), k, 1);
        lemma_zero_bits(src, k + 1);
        if k < 8 {
            if src.len() > 0 {
                lemma_top_bit(src, k);
                lemma_pow2_pos((7 - k) as nat);
                lemma_basic_div(0, pow2((7 - k) as nat) as int);
            } else {
                lemma_backward(src, k, 1, 0);
                lemma2_to64();
                let v = RevBits::of_bytes(src).skip(k).peek(1);
                assert(v / pow2(0) == v);
                assert(v == 0);
            }
        }
    }
}

/// A backward stream without bytes, or whose last byte is zero, is refused.
pub proof fn lemma_not_closed(src: Seq<u8>)
    requires
        src.len() == 0 || src.last() == 0,
    ensures
        bitreader::stream_start(src) == Err::<RevBits, DecodeError>(
            DecodeError::ExtraPadding { skipped: 9 },
        ),
{
    let r = RevBits::of_bytes(src);
    assert(r.skip(0) == r) by {
        assert(r.bits.take(r.bits.len() as int) =~= r.bits);
    }
    lemma_zero_bits(src, 0);
}

} // verus!
