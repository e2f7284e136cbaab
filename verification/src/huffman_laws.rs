//! What a Huffman tree description means, and how its codes are laid out and read.
use crate::bitreader;
use crate::bitreader::RevBits;
use crate::bits;
use crate::error::DecodeError;
use crate::fse_decode;
use crate::fse_decode::FseTab;
use crate::fse_table;
use crate::huffman;
use crate::huffman::HufTab;
use crate::literals;
use vstd::arithmetic::power2::*;
use vstd::prelude::*;

verus! {

// ---------------------------------------------------------------------------
// Weights
// ---------------------------------------------------------------------------

/// A tree description that starts with a byte from 128 on has as many weights as this byte is
/// above 127, two to a byte, the first in the high half.
pub proof fn lemma_packed_weights(src: Seq<u8>)
    requires
        src.len() > 0,
        src[0] >= 128,
    ensures
        ({
            let num = src[0] - 127;
            let bytes = num / 2 + num % 2;
            &&& src.len() <= bytes ==> huffman::huf_weights(src) == Err::<
                (Seq<u8>, nat),
                DecodeError,
            >(
                DecodeError::NotEnoughPackedWeights {
                    have: (src.len() - 1) as usize,
                    need: bytes as usize,
                },
            )
            &&& src.len() > bytes ==> {
                &&& huffman::huf_weights(src) matches Ok((w, n))
                &&& n == 1 + bytes
                &&& w.len() == num
                &&& forall|i: int|
                    0 <= i < num ==> #[trigger] w[i] == if i % 2 == 0 {
                        src[1 + i / 2] / 16
                    } else {
                        src[1 + i / 2] % 16
                    }
            }
        }),
{
    let num = src[0] - 127;
    let stream = src.skip(1);
    if src.len() > (num + 1) / 2 {
        let w = huffman::packed_weights(stream, num as nat);
        assert forall|i: int| 0 <= i < num implies #[trigger] w[i] == if i % 2 == 0 {
            src[1 + i / 2] / 16
        } else {
            src[1 + i / 2] % 16
        } by {
            assert(stream[i / 2] == src[1 + i / 2]);
        }
    }
}

/// Any other tree description has as many bytes as its first one says: an FSE table of at most
/// 64 cells, and a stream that starts with two cells of it.
pub proof fn lemma_coded_weights(src: Seq<u8>, h: fse_decode::FseHeader, r: RevBits)
    requires
        src.len() > 0,
        src[0] < 128,
        src.len() > src[0],
        fse_decode::fse_header(src.skip(1), 6, 255) == Ok::<fse_decode::FseHeader, DecodeError>(h),
        h.bytes <= src[0],
        bitreader::stream_start(src.subrange(1 + h.bytes as int, 1 + src[0])) == Ok::<
            RevBits,
            DecodeError,
        >(r),
    ensures
        ({
            let t = FseTab { log: h.log, probs: h.probs };
            let r1 = r.skip(h.log);
            huffman::huf_weights(src) == match huffman::weights_loop(
                t,
                r.peek(h.log),
                r1.peek(h.log),
                r1.skip(h.log),
                Seq::empty(),
            ) {
                Ok(w) => Ok((w, (1 + src[0]) as nat)),
                Err(e) => Err(e),
            }
        }),
{
    assert(src.skip(1).subrange(h.bytes as int, src[0] as int) =~= src.subrange(
        1 + h.bytes as int,
        1 + src[0],
    ));
}

/// The two cells take turns: each gives a weight and goes on to its next cell.  Where the bits
/// for that are not there, the other gives the last weight.
pub proof fn lemma_next_weights(t: FseTab, a: nat, b: nat, r: RevBits, acc: Seq<u8>)
    ensures
        ({
            let r1 = r.skip(t.next(a).bits);
            let r2 = r1.skip(t.next(b).bits);
            let a1 = t.next(a).base + r.peek(t.next(a).bits);
            let b1 = t.next(b).base + r1.peek(t.next(b).bits);
            let two = acc.push(t.symbol(a) as u8).push(t.symbol(b) as u8);
            huffman::weights_loop(t, a, b, r, acc) == if r1.remaining() < 0 {
                Ok(two)
            } else if r2.remaining() < 0 {
                Ok(two.push(t.symbol(a1) as u8))
            } else if two.len() > 255 {
                Err(DecodeError::TooManyWeights { weights: two.len() as usize })
            } else {
                huffman::weights_loop(t, a1, b1, r2, two)
            }
        }),
{
}

// ---------------------------------------------------------------------------
// Code lengths
// ---------------------------------------------------------------------------

/// The sum of what the first `n` weights stand for: `2^(w - 1)` for a weight `w`, and nothing
/// for weight 0.
pub open spec fn weight_sum(w: Seq<u8>, n: int) -> int
    decreases n,
{
    if n <= 0 {
        0
    } else {
        weight_sum(w, n - 1) + if w[n - 1] > 0 {
            pow2((w[n - 1] - 1) as nat) as int
        } else {
            0
        }
    }
}

proof fn lemma_sum_from(w: Seq<u8>, i: nat)
    requires
        i <= w.len(),
        forall|k: int| 0 <= k < w.len() ==> #[trigger] w[k] <= 11,
    ensures
        weight_sum(w, i as int) >= 0,
        huffman::sum_weights(w, i, weight_sum(w, i as int) as nat) == Ok::<nat, DecodeError>(
            weight_sum(w, w.len() as int) as nat,
        ),
    decreases w.len() - i,
{
    lemma_sum_positive(w, i as int);
    if i < w.len() {
        assert(w[i as int] <= 11);
        lemma_sum_from(w, i + 1);
    }
}

proof fn lemma_sum_positive(w: Seq<u8>, n: int)
    ensures
        weight_sum(w, n) >= 0,
    decreases n,
{
    if n > 0 {
        lemma_sum_positive(w, n - 1);
    }
}

/// The codes that weights stand for.  The weights leave a power of two to the next power of two
/// above them, `2^max`, and one more symbol takes it; then a symbol of weight `x` has a code of
/// `max + 1 - x` bits, and one of weight 0 none.
pub proof fn lemma_lengths_of_weights(w: Seq<u8>, max: nat, last: nat)
    requires
        w.len() <= 257,
        forall|k: int| 0 <= k < w.len() ==> #[trigger] w[k] <= 11,
        weight_sum(w, w.len() as int) > 0,
        1 <= last <= max <= 11,
        pow2((max - 1) as nat) <= weight_sum(w, w.len() as int),
        weight_sum(w, w.len() as int) + pow2((max - last) as nat) == pow2(max),
    ensures
        huffman::huf_table(w) matches Ok(t) && {
            &&& t.max_bits == max
            &&& t.lens.len() == w.len() + 1
            &&& t.lens[w.len() as int] == last
            &&& forall|s: int|
                0 <= s < w.len() ==> #[trigger] t.lens[s] == if w[s] == 0 {
                    0
                } else {
                    max + 1 - w[s]
                }
        },
{
    assert(weight_sum(w, 0) == 0);
    lemma_sum_from(w, 0);
    let sum = weight_sum(w, w.len() as int) as nat;
    lemma_pow2_unfold(max);
    lemma_pow2_pos((max - last) as nat);
    bits::lemma_high_bit_unique(sum, (max - 1) as nat);
    let left = (pow2(max) - sum) as nat;
    lemma_pow2_unfold((max - last + 1) as nat);
    bits::lemma_high_bit_unique(left, (max - last) as nat);
}

/// Weights that are refused: none but zeros, those that leave no power of two, and
/// those that would make codes of more than eleven bits.
pub proof fn lemma_refused_weights(w: Seq<u8>, max: nat, last: nat)
    requires
        w.len() <= 257,
        forall|k: int| 0 <= k < w.len() ==> #[trigger] w[k] <= 11,
    ensures
        weight_sum(w, w.len() as int) == 0 ==> huffman::huf_table(w) == Err::<
            HufTab,
            DecodeError,
        >(DecodeError::MissingWeights),
        ({
            let sum = weight_sum(w, w.len() as int);
            &&& max >= 1 && pow2((max - 1) as nat) <= sum < pow2(max) && (forall|k: nat|
                pow2(max) - sum != #[trigger] pow2(k)) ==> huffman::huf_table(w) == Err::<
                HufTab,
                DecodeError,
            >(DecodeError::LeftoverNotPowerOfTwo { leftover: (pow2(max) - sum) as u32 })
            &&& max > 11 && pow2((max - 1) as nat) <= sum < pow2(max) && pow2(max) - sum == pow2(
                last,
            ) ==> huffman::huf_table(w) == Err::<HufTab, DecodeError>(
                DecodeError::MaxBitsTooLarge { bits: max as u8 },
            )
        }),
{
    assert(weight_sum(w, 0) == 0);
    lemma_sum_from(w, 0);
    let sum = weight_sum(w, w.len() as int) as nat;
    if max >= 1 && pow2((max - 1) as nat) <= sum < pow2(max) {
        lemma_pow2_pos((max - 1) as nat);
        bits::lemma_high_bit_unique(sum, (max - 1) as nat);
        if pow2(max) - sum == pow2(last) {
            lemma_pow2_pos(last);
            lemma_pow2_unfold(last + 1);
            bits::lemma_high_bit_unique(pow2(last), last);
        }
    }
}

proof fn lemma_sum_refused(w: Seq<u8>, i: nat, sum: nat, k: int)
    requires
        i <= k < w.len(),
        w[k] > 11,
        forall|j: int| i <= j < k ==> #[trigger] w[j] <= 11,
    ensures
        huffman::sum_weights(w, i, sum) == Err::<nat, DecodeError>(
            DecodeError::WeightTooLarge { weight: w[k] },
        ),
    decreases k - i,
{
    if i < k {
        assert(w[i as int] <= 11);
        lemma_sum_refused(w, i + 1, sum + huffman::weight_value(w[i as int] as int), k);
    }
}

/// A weight above 11 is refused.
pub proof fn lemma_weight_too_large(w: Seq<u8>, k: int)
    requires
        0 <= k < w.len(),
        w[k] > 11,
        forall|j: int| 0 <= j < k ==> #[trigger] w[j] <= 11,
    ensures
        huffman::huf_table(w) == Err::<HufTab, DecodeError>(
            DecodeError::WeightTooLarge { weight: w[k] },
        ),
{
    lemma_sum_refused(w, 0, 0, k);
}

// ---------------------------------------------------------------------------
// Codes
// ---------------------------------------------------------------------------

/// The code of `u` stands before that of `s`: it is longer, or it is as long and of a lower
/// symbol.
pub open spec fn stands_before(t: HufTab, u: int, s: int) -> bool {
    &&& t.lens[u] > 0
    &&& t.lens[u] > t.lens[s] || (t.lens[u] == t.lens[s] && u < s)
}

/// The code space that the first `n` symbols take before the code of `s`; a code of `b` bits
/// takes `2^(max - b)`.
pub open spec fn space_before(t: HufTab, s: int, n: int) -> int
    decreases n,
{
    if n <= 0 {
        0
    } else {
        space_before(t, s, n - 1) + if stands_before(t, n - 1, s) {
            pow2((t.max_bits - t.lens[n - 1]) as nat) as int
        } else {
            0
        }
    }
}

proof fn lemma_space_before(t: HufTab, s: int, n: nat)
    requires
        t.is_code(),
        0 <= s < t.lens.len(),
        t.lens[s] > 0,
        n <= t.lens.len(),
    ensures
        space_before(t, s, n as int) == huffman::code_start(
            t.lens,
            t.max_bits,
            t.lens[s] as nat,
            n,
        ) + fse_table::occurrences(
            t.lens,
            t.lens[s],
            if n <= s {
                n
            } else {
                s as nat
            },
        ) * t.span(s),
    decreases n,
{
    let w = t.span(s) as int;
    if n == 0 {
        huffman::lemma_code_start_zero(t.lens, t.max_bits, t.lens[s] as nat);
        assert(0 * w == 0) by (nonlinear_arith);
    } else {
        let m = (n - 1) as nat;
        lemma_space_before(t, s, m);
        assert(0 <= t.lens[m as int] <= t.max_bits);
        huffman::lemma_code_start_push(t.lens, t.max_bits, t.lens[s] as nat, m);
        if n <= s {
            let o = fse_table::occurrences(t.lens, t.lens[s], m) as int;
            assert((o + 1) * w == o * w + w) by (nonlinear_arith);
        }
    }
}

/// How codes are read: of the numbers of `max` bits each code has those that it starts, the
/// longest codes have the lowest, and codes of one length follow their symbols.
pub proof fn lemma_code_order(t: HufTab, idx: nat)
    requires
        t.is_code(),
        idx < pow2(t.max_bits),
    ensures
        ({
            let s = t.symbol(idx);
            let start = space_before(t, s, t.lens.len() as int);
            &&& 0 <= s < t.lens.len()
            &&& 1 <= t.lens[s] <= t.max_bits
            &&& start <= idx < start + pow2((t.max_bits - t.lens[s]) as nat)
        }),
{
    huffman::lemma_owner(t, idx);
    let s = t.symbol(idx);
    assert(0 <= t.lens[s] <= t.max_bits);
    lemma_space_before(t, s, t.lens.len());
}

/// Every symbol with a code is read.
pub proof fn lemma_every_code(t: HufTab, s: int, k: nat)
    requires
        t.is_code(),
        0 <= s < t.lens.len(),
        t.lens[s] > 0,
        k < pow2((t.max_bits - t.lens[s]) as nat),
    ensures
        space_before(t, s, t.lens.len() as int) >= 0,
        space_before(t, s, t.lens.len() as int) + k < pow2(t.max_bits),
        t.symbol((space_before(t, s, t.lens.len() as int) + k) as nat) == s,
{
    lemma_space_before(t, s, t.lens.len());
    huffman::lemma_owns_range(t, s);
    let idx = t.base(s) + k;
    assert(t.owns(s, idx as int));
    huffman::lemma_owner(t, idx);
    huffman::lemma_owns_unique(t, s, t.symbol(idx), idx as int);
}

// ---------------------------------------------------------------------------
// Streams
// ---------------------------------------------------------------------------

/// While there are bits, the next `max` of them, with zeros behind the last, tell the next
/// symbol, and its code is passed over.
pub proof fn lemma_next_symbol(t: HufTab, r: RevBits, acc: Seq<u8>)
    requires
        t.is_code(),
        r.wf(),
        r.remaining() > 0,
    ensures
        ({
            let s = t.symbol(r.peek(t.max_bits));
            &&& 0 <= s < t.lens.len()
            &&& t.lens[s] > 0
            &&& huffman::huf_run(t, r, acc) == huffman::huf_run(
                t,
                r.skip(t.lens[s] as nat),
                acc.push((s % 256) as u8),
            )
        }),
{
    bitreader::lemma_skip(r, t.max_bits);
    lemma_code_order(t, r.peek(t.max_bits));
}

/// Where no bits are left, the symbols are complete.
pub proof fn lemma_last_symbol(t: HufTab, r: RevBits, acc: Seq<u8>)
    requires
        r.remaining() <= 0,
    ensures
        huffman::huf_run(t, r, acc) == (acc, r),
{
}

/// A stream is read from where it starts to where no bits are left.  One of four is refused
/// where its last code is cut off.
pub proof fn lemma_stream(t: HufTab, stream: Seq<u8>, acc: Seq<u8>)
    ensures
        bitreader::stream_start(stream) matches Err(e) ==> {
            &&& huffman::huf_stream(t, stream, acc) == Err::<(Seq<u8>, int), DecodeError>(e)
            &&& literals::exact_stream(t, stream, acc) == Err::<Seq<u8>, DecodeError>(e)
        },
        bitreader::stream_start(stream) matches Ok(r) ==> {
            let (lits, end) = huffman::huf_run(t, r, acc);
            &&& huffman::huf_stream(t, stream, acc) == Ok::<(Seq<u8>, int), DecodeError>(
                (lits, end.remaining()),
            )
            &&& end.remaining() == 0 ==> literals::exact_stream(t, stream, acc) == Ok::<
                Seq<u8>,
                DecodeError,
            >(lits)
            &&& end.remaining() != 0 ==> literals::exact_stream(t, stream, acc) == Err::<
                Seq<u8>,
                DecodeError,
            >(
                DecodeError::LiteralStreamMismatch {
                    remaining: (end.remaining() - t.max_bits) as i64,
                    expected: (0 - t.max_bits) as i64,
                },
            )
        },
{
    reveal(literals::exact_stream);
}

/// Coded weights that are refused: those that end before their length says, those whose table
/// is refused or takes more than all of it, and those whose stream is not closed.
pub proof fn lemma_refused_coded_weights(src: Seq<u8>)
    requires
        src.len() > 0,
        src[0] < 128,
    ensures
        src.len() <= src[0] ==> huffman::huf_weights(src) == Err::<(Seq<u8>, nat), DecodeError>(
            DecodeError::NotEnoughWeightBytes {
                have: (src.len() - 1) as usize,
                need: src[0] as usize,
            },
        ),
        src.len() > src[0] ==> match fse_decode::fse_header(src.skip(1), 6, 255) {
            Err(e) => huffman::huf_weights(src) == Err::<(Seq<u8>, nat), DecodeError>(e),
            Ok(h) => {
                &&& h.bytes > src[0] ==> huffman::huf_weights(src) == Err::<
                    (Seq<u8>, nat),
                    DecodeError,
                >(
                    DecodeError::FseHeaderTooLong {
                        used: h.bytes as usize,
                        available: src[0],
                    },
                )
                &&& h.bytes <= src[0] ==> (bitreader::stream_start(
                    src.subrange(1 + h.bytes as int, 1 + src[0]),
                ) matches Err(e) ==> huffman::huf_weights(src) == Err::<
                    (Seq<u8>, nat),
                    DecodeError,
                >(e))
            },
        },
        huffman::huf_weights(Seq::empty()) == Err::<(Seq<u8>, nat), DecodeError>(
            DecodeError::HuffmanSourceEmpty,
        ),
{
    if src.len() > src[0] {
        if let Ok(h) = fse_decode::fse_header(src.skip(1), 6, 255) {
            if h.bytes <= src[0] {
                assert(src.skip(1).subrange(h.bytes as int, src[0] as int) =~= src.subrange(
                    1 + h.bytes as int,
                    1 + src[0],
                ));
            }
        }
    }
}

} // verus!
