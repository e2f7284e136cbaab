//! Huffman codes of a simple kind: lengths are estimated from the frequencies alone.
use crate::bits;
use crate::bits::{high_bit_u64, pow2_u64};
use crate::fse_table;
use crate::huf_lengths;
use crate::huf_lengths::longest_code;
use crate::huffman;
use crate::normalize;
use crate::seq_section::count_used;
use vstd::arithmetic::div_mod::*;
use vstd::arithmetic::mul::*;
use vstd::arithmetic::power2::*;
use vstd::prelude::*;

verus! {

/// A code and its length; length 0 for symbols without a code.
#[derive(Debug, Clone, Copy, PartialEq, Eq, Structural)]
pub struct HufCode {
    pub bits: u32,
    pub nbits: u8,
}

impl Default for HufCode {
    fn default() -> (c: HufCode)
        ensures
            c == (HufCode { bits: 0, nbits: 0 }),
    {
        HufCode { bits: 0, nbits: 0 }
    }
}

// ---------------------------------------------------------------------------
// Lengths
// ---------------------------------------------------------------------------

/// The longest length for `n` symbols.
pub open spec fn max_length(n: nat) -> nat {
    if bits::high_bit(n) + 2 < 11 {
        bits::high_bit(n) + 2
    } else {
        11
    }
}

/// The estimated length for a symbol with the frequency `freq` out of `total`: one more
/// than the logarithm of how rare it is.
pub open spec fn ideal_length(freq: nat, total: nat, max_bits: nat) -> nat {
    let rarity = total / freq;
    if freq == 0 {
        0
    } else if rarity <= 1 {
        1
    } else if 1 + bits::high_bit(rarity) < max_bits {
        1 + bits::high_bit(rarity)
    } else {
        max_bits
    }
}

pub open spec fn ideal_lengths(counts: Seq<u32>, max_bits: nat) -> Seq<u8> {
    let total = normalize::count_sum(counts, counts.len());
    Seq::new(counts.len(), |s: int| ideal_length(counts[s] as nat, total, max_bits) as u8)
}

/// The code space that lengths take.
pub open spec fn space_of(lens: Seq<u8>, max_bits: nat) -> nat {
    huffman::code_space(huffman::lens_of(lens), max_bits, lens.len())
}

/// The lengths: the estimated ones where they fill the code space exactly, else the
/// longest one for every symbol.  A symbol with a saturated count keeps its estimated
/// length where the estimated lengths leave code space free.
pub open spec fn lengths_for(counts: Seq<u32>, max_bits: nat) -> Seq<u8> {
    let ideal = ideal_lengths(counts, max_bits);
    let space = space_of(ideal, max_bits);
    if space == pow2(max_bits) {
        ideal
    } else {
        Seq::new(
            counts.len(),
            |s: int|
                if counts[s] == 0 || (counts[s] == u32::MAX && space < pow2(max_bits)) {
                    ideal[s]
                } else {
                    max_bits as u8
                },
        )
    }
}

proof fn lemma_ideal(freq: nat, total: nat, max_bits: nat)
    requires
        freq <= total,
        2 <= max_bits <= 11,
    ensures
        ideal_length(freq, total, max_bits) <= max_bits,
        freq > 0 <==> ideal_length(freq, total, max_bits) > 0,
{
}

/// Assigns lengths.
fn assign_lengths(counts: &[u32; 256], max_bits: u8) -> (lengths: Vec<u8>)
    requires
        2 <= max_bits <= 11,
    ensures
        lengths@ == lengths_for(counts@, max_bits as nat),
        lengths@.len() == 256,
        forall|s: int| 0 <= s < 256 ==> #[trigger] lengths@[s] <= max_bits,
        forall|s: int| 0 <= s < 256 ==> (#[trigger] lengths@[s] > 0 <==> counts@[s] > 0),
{
    let mut total: u64 = 0;
    let mut s: usize = 0;
    while s < 256
        invariant
            s <= 256,
            total == normalize::count_sum(counts@, s as nat),
            total <= s * 0xFFFF_FFFF,
        decreases 256 - s,
    {
        total = total + counts[s] as u64;
        s = s + 1;
    }
    let ghost ideal = ideal_lengths(counts@, max_bits as nat);
    let mut lengths: Vec<u8> = Vec::new();
    let mut kraft: u64 = 0;
    s = 0;
    while s < 256
        invariant
            s <= 256,
            2 <= max_bits <= 11,
            total == normalize::count_sum(counts@, 256),
            ideal == ideal_lengths(counts@, max_bits as nat),
            lengths@.len() == s,
            forall|i: int| 0 <= i < s ==> #[trigger] lengths@[i] == ideal[i],
            forall|i: int| 0 <= i < s ==> #[trigger] lengths@[i] <= max_bits,
            forall|i: int| 0 <= i < s ==> (#[trigger] lengths@[i] > 0 <==> counts@[i] > 0),
            kraft == huffman::code_space(huffman::lens_of(ideal), max_bits as nat, s as nat),
            kraft <= 2048 * s,
        decreases 256 - s,
    {
        let freq = counts[s];
        proof {
            normalize::lemma_count_sum_member(counts@, 256, s as int);
            lemma_ideal(freq as nat, total as nat, max_bits as nat);
            assert(huffman::lens_of(ideal)[s as int] == ideal_length(
                freq as nat,
                total as nat,
                max_bits as nat,
            ));
        }
        let len: u8 = if freq == 0 {
            0
        } else {
            let rarity = total / freq as u64;
            if rarity <= 1 {
                1
            } else {
                let h = high_bit_u64(rarity);
                if 1 + h < max_bits as u32 {
                    (1 + h) as u8
                } else {
                    max_bits
                }
            }
        };
        lengths.push(len);
        if len > 0 {
            proof {
                lemma2_to64();
                bits::lemma_pow2_monotone((max_bits - len) as nat, 11);
            }
            kraft = kraft + pow2_u64((max_bits - len) as u32);
        }
        s = s + 1;
    }
    assert(lengths@ =~= ideal);
    let target = pow2_u64(max_bits as u32);
    if kraft == target {
        return lengths;
    }
    let underfull = kraft < target;
    s = 0;
    while s < 256
        invariant
            s <= 256,
            2 <= max_bits <= 11,
            lengths@.len() == 256,
            ideal.len() == 256,
            forall|i: int| s <= i < 256 ==> #[trigger] lengths@[i] == ideal[i],
            forall|i: int|
                0 <= i < s ==> #[trigger] lengths@[i] == (if counts@[i] == 0 || (counts@[i]
                    == u32::MAX && underfull) {
                    ideal[i]
                } else {
                    max_bits
                }),
            forall|i: int| 0 <= i < 256 ==> #[trigger] lengths@[i] <= max_bits,
            forall|i: int| 0 <= i < 256 ==> (#[trigger] lengths@[i] > 0 <==> counts@[i] > 0),
        decreases 256 - s,
    {
        if counts[s] != 0 && (counts[s] != u32::MAX || !underfull) {
            lengths[s] = max_bits;
        }
        s = s + 1;
    }
    assert(lengths@ =~= lengths_for(counts@, max_bits as nat));
    lengths
}

// ---------------------------------------------------------------------------
// Codes
// ---------------------------------------------------------------------------

/// The first code of `b` bits: the shorter codes come first.
pub open spec fn first_code(lens: Seq<u8>, b: nat) -> nat
    decreases b,
{
    if b == 0 {
        0
    } else {
        2 * (first_code(lens, (b - 1) as nat) + (if b == 1 {
            0
        } else {
            fse_table::occurrences(huffman::lens_of(lens), b - 1, lens.len())
        }))
    }
}

/// The code of symbol `s`: codes of one length follow the order of their symbols.
pub open spec fn code_for(lens: Seq<u8>, s: int) -> HufCode {
    if lens[s] == 0 {
        HufCode { bits: 0, nbits: 0 }
    } else {
        HufCode {
            bits: (first_code(lens, lens[s] as nat) + fse_table::occurrences(
                huffman::lens_of(lens),
                lens[s] as int,
                s as nat,
            )) as u32,
            nbits: lens[s],
        }
    }
}

pub proof fn lemma_occurrences_bound(t: Seq<int>, s: int, n: nat)
    ensures
        fse_table::occurrences(t, s, n) <= n,
    decreases n,
{
    if n > 0 {
        lemma_occurrences_bound(t, s, (n - 1) as nat);
    }
}

pub proof fn lemma_first_code_bound(lens: Seq<u8>, b: nat)
    requires
        lens.len() == 256,
        b <= 11,
    ensures
        first_code(lens, b) + 512 <= 512 * pow2(b),
    decreases b,
{
    lemma2_to64();
    if b > 0 {
        lemma_first_code_bound(lens, (b - 1) as nat);
        lemma_occurrences_bound(huffman::lens_of(lens), b - 1, 256);
        lemma_pow2_unfold(b);
    }
}

/// The codes of `b` bits end before the longer codes begin.
proof fn lemma_first_code_after(lens: Seq<u8>, a: nat, b: nat)
    requires
        1 <= a < b,
    ensures
        first_code(lens, b) >= (first_code(lens, a) + fse_table::occurrences(
            huffman::lens_of(lens),
            a as int,
            lens.len(),
        )) * pow2((b - a) as nat),
    decreases b,
{
    let end = first_code(lens, a) + fse_table::occurrences(
        huffman::lens_of(lens),
        a as int,
        lens.len(),
    );
    lemma_pow2_unfold((b - a) as nat);
    lemma2_to64();
    if b == a + 1 {
        assert(first_code(lens, b) == 2 * end);
    } else {
        lemma_first_code_after(lens, a, (b - 1) as nat);
        let half = pow2((b - 1 - a) as nat);
        assert(end * (2 * half) == 2 * (end * half)) by (nonlinear_arith);
    }
}

/// Below the first code of `b` bits lies the code space of the shorter codes.
proof fn lemma_first_code_space(lens: Seq<u8>, max_bits: nat, b: nat)
    requires
        1 <= b <= max_bits,
        forall|s: int| 0 <= s < lens.len() ==> #[trigger] lens[s] <= max_bits,
    ensures
        first_code(lens, b) * pow2((max_bits - b) as nat) + huffman::code_start(
            huffman::lens_of(lens),
            max_bits,
            (b - 1) as nat,
            lens.len(),
        ) == space_of(lens, max_bits),
    decreases b,
{
    let all = huffman::lens_of(lens);
    if b == 1 {
        assert(forall|s: int| 0 <= s < all.len() ==> 0 <= #[trigger] all[s] <= max_bits) by {
            assert forall|s: int| 0 <= s < all.len() implies 0 <= #[trigger] all[s]
                <= max_bits by {
                assert(lens[s] <= max_bits);
            }
        }
        huffman::lemma_code_space(all, max_bits, lens.len());
        assert(first_code(lens, 0) == 0);
        assert(first_code(lens, 1) == 0);
        assert(0 * pow2((max_bits - b) as nat) == 0) by (nonlinear_arith);
    } else {
        lemma_first_code_space(lens, max_bits, (b - 1) as nat);
        let f = first_code(lens, (b - 1) as nat);
        let o = fse_table::occurrences(all, b - 1, lens.len());
        let w = pow2((max_bits - b) as nat);
        lemma_pow2_unfold((max_bits - b + 1) as nat);
        assert((2 * (f + o)) * w == f * (2 * w) + o * (2 * w)) by (nonlinear_arith);
    }
}

/// A code fits its length.
proof fn lemma_code_fits(lens: Seq<u8>, max_bits: nat, s: int)
    requires
        0 <= s < lens.len() <= 256,
        lens[s] > 0,
        max_bits <= 11,
        forall|s: int| 0 <= s < lens.len() ==> #[trigger] lens[s] <= max_bits,
        space_of(lens, max_bits) <= pow2(max_bits),
    ensures
        first_code(lens, lens[s] as nat) + fse_table::occurrences(
            huffman::lens_of(lens),
            lens[s] as int,
            s as nat,
        ) < pow2(lens[s] as nat),
        pow2(lens[s] as nat) <= 2048,
{
    let b = lens[s] as nat;
    let all = huffman::lens_of(lens);
    lemma_first_code_space(lens, max_bits, b);
    fse_table::lemma_occurrences_monotone(all, b as int, s as nat, lens.len());
    let f = first_code(lens, b);
    let r = fse_table::occurrences(all, b as int, s as nat);
    let o = fse_table::occurrences(all, b as int, lens.len());
    let w = pow2((max_bits - b) as nat);
    lemma_pow2_pos((max_bits - b) as nat);
    lemma_pow2_adds(b, (max_bits - b) as nat);
    assert(f + r < pow2(b)) by (nonlinear_arith)
        requires
            r < o,
            f * w + o * w <= pow2(b) * w,
            w > 0,
    ;
    lemma2_to64();
    bits::lemma_pow2_monotone(b, 11);
}

/// Longer codes take less code space.
proof fn lemma_space_shrinks(a: Seq<u8>, b: Seq<u8>, max_bits: nat, n: nat)
    requires
        n <= a.len() == b.len(),
        forall|s: int|
            0 <= s < a.len() ==> #[trigger] a[s] <= b[s] <= max_bits && (a[s] > 0 <==> b[s] > 0),
    ensures
        huffman::code_space(huffman::lens_of(b), max_bits, n) <= huffman::code_space(
            huffman::lens_of(a),
            max_bits,
            n,
        ),
    decreases n,
{
    if n > 0 {
        lemma_space_shrinks(a, b, max_bits, (n - 1) as nat);
        assert(a[n - 1] <= b[n - 1]);
        bits::lemma_pow2_monotone((max_bits - b[n - 1]) as nat, (max_bits - a[n - 1]) as nat);
    }
}

/// Codes of the longest length take a unit of code space each.
proof fn lemma_space_flat(counts: Seq<u32>, lens: Seq<u8>, max_bits: nat, n: nat)
    requires
        n <= counts.len() == lens.len(),
        max_bits <= 11,
        forall|s: int|
            0 <= s < lens.len() ==> #[trigger] lens[s] == (if counts[s] == 0 {
                0
            } else {
                max_bits
            }),
    ensures
        huffman::code_space(huffman::lens_of(lens), max_bits, n) <= normalize::used_count(
            counts,
            n,
        ),
    decreases n,
{
    if n > 0 {
        lemma_space_flat(counts, lens, max_bits, (n - 1) as nat);
        lemma2_to64();
        assert(lens[n - 1] == (if counts[n - 1] == 0 {
            0
        } else {
            max_bits
        }));
    }
}

/// The lengths keep to the longest one and to the code space.
proof fn lemma_lengths(counts: Seq<u32>)
    requires
        counts.len() == 256,
        normalize::used_count(counts, 256) > 1,
    ensures
        ({
            let max_bits = max_length(normalize::used_count(counts, 256));
            let lens = lengths_for(counts, max_bits);
            &&& 2 <= max_bits <= 11
            &&& space_of(lens, max_bits) <= pow2(max_bits)
            &&& forall|s: int|
                0 <= s < 256 ==> #[trigger] lens[s] <= max_bits && (lens[s] > 0 <==> counts[s] > 0)
        }),
{
    let n = normalize::used_count(counts, 256);
    let max_bits = max_length(n);
    let total = normalize::count_sum(counts, 256);
    let ideal = ideal_lengths(counts, max_bits);
    let lens = lengths_for(counts, max_bits);
    normalize::lemma_used_bound(counts, 256);
    bits::lemma_high_bit(n);
    lemma2_to64();
    if bits::high_bit(n) >= 9 {
        bits::lemma_pow2_monotone(9, bits::high_bit(n));
    }
    assert forall|s: int| 0 <= s < 256 implies #[trigger] ideal[s] <= max_bits && (ideal[s] > 0
        <==> counts[s] > 0) by {
        normalize::lemma_count_sum_member(counts, 256, s);
        lemma_ideal(counts[s] as nat, total, max_bits);
    }
    if space_of(ideal, max_bits) < pow2(max_bits) {
        assert forall|s: int| 0 <= s < 256 implies #[trigger] ideal[s] <= lens[s] <= max_bits && (
        ideal[s] > 0 <==> lens[s] > 0) by {}
        lemma_space_shrinks(ideal, lens, max_bits, 256);
    } else if space_of(ideal, max_bits) > pow2(max_bits) {
        lemma_space_flat(counts, lens, max_bits, 256);
        bits::lemma_pow2_monotone(bits::high_bit(n) + 1, max_bits);
    }
    assert forall|s: int| 0 <= s < 256 implies #[trigger] lens[s] <= max_bits && (lens[s] > 0
        <==> counts[s] > 0) by {
        assert(ideal[s] <= max_bits);
    }
}

/// Every code fits its length, and no code begins another one: cut to the length of a
/// code that is not longer, a code differs from it.
pub proof fn lemma_prefix_free(counts: Seq<u32>, s: int, u: int)
    requires
        counts.len() == 256,
        normalize::used_count(counts, 256) > 1,
        0 <= s < 256,
        0 <= u < 256,
        s != u,
        counts[s] > 0,
        counts[u] > 0,
    ensures
        ({
            let lens = lengths_for(counts, max_length(normalize::used_count(counts, 256)));
            let (c, d) = (code_for(lens, s), code_for(lens, u));
            &&& 0 < c.nbits <= 11
            &&& c.bits < pow2(c.nbits as nat)
            &&& c.nbits <= d.nbits ==> c.bits != d.bits as nat / pow2((d.nbits - c.nbits) as nat)
        }),
{
    let max_bits = max_length(normalize::used_count(counts, 256));
    let lens = lengths_for(counts, max_bits);
    let all = huffman::lens_of(lens);
    lemma_lengths(counts);
    assert(lens[s] <= max_bits && lens[u] <= max_bits);
    lemma_code_fits(lens, max_bits, s);
    lemma_code_fits(lens, max_bits, u);
    let a = lens[s] as nat;
    let b = lens[u] as nat;
    let c = first_code(lens, a) + fse_table::occurrences(all, a as int, s as nat);
    let d = first_code(lens, b) + fse_table::occurrences(all, b as int, u as nat);
    if a == b {
        lemma2_to64();
        if s < u {
            fse_table::lemma_occurrences_monotone(all, a as int, s as nat, u as nat);
        } else {
            fse_table::lemma_occurrences_monotone(all, a as int, u as nat, s as nat);
        }
        assert(d / 1 == d);
    } else if a < b {
        lemma_first_code_after(lens, a, b);
        fse_table::lemma_occurrences_monotone(all, a as int, s as nat, 256);
        let w = pow2((b - a) as nat);
        lemma_pow2_pos((b - a) as nat);
        let o = fse_table::occurrences(all, a as int, 256);
        let f = first_code(lens, a);
        assert(d >= (c + 1) * w) by (nonlinear_arith)
            requires
                d >= (f + o) * w,
                c + 1 <= f + o,
                w > 0,
        ;
        lemma_div_is_ordered(((c + 1) * w) as int, d as int, w as int);
        lemma_div_multiples_vanish((c + 1) as int, w as int);
        lemma_mul_is_commutative((c + 1) as int, w as int);
    }
}

/// Gives every symbol its code.
fn assign_simple_codes(lengths: &Vec<u8>, actual_max: u8) -> (codes: Vec<HufCode>)
    requires
        lengths@.len() == 256,
        actual_max <= 11,
        forall|s: int| 0 <= s < 256 ==> #[trigger] lengths@[s] <= actual_max,
    ensures
        codes@ == Seq::new(256, |s: int| code_for(lengths@, s)),
{
    let ghost lens = huffman::lens_of(lengths@);
    let mut bl_count: Vec<u32> = vec![0u32; 12];
    let mut s: usize = 0;
    while s < 256
        invariant
            s <= 256,
            lengths@.len() == 256,
            lens == huffman::lens_of(lengths@),
            actual_max <= 11,
            forall|s: int| 0 <= s < 256 ==> #[trigger] lengths@[s] <= actual_max,
            bl_count@.len() == 12,
            bl_count@[0] == 0,
            forall|b: int|
                1 <= b < 12 ==> #[trigger] bl_count@[b] == fse_table::occurrences(
                    lens,
                    b,
                    s as nat,
                ),
            forall|b: int| 0 <= b < 12 ==> #[trigger] bl_count@[b] <= s,
        decreases 256 - s,
    {
        let l = lengths[s];
        assert(lengths@[s as int] <= actual_max);
        if l > 0 {
            assert(bl_count@[l as int] <= s);
            bl_count[l as usize] = bl_count[l as usize] + 1;
        }
        s = s + 1;
    }
    let mut next_code: Vec<u32> = vec![0u32; 12];
    let mut b: usize = 1;
    while b <= actual_max as usize
        invariant
            1 <= b <= actual_max + 1,
            actual_max <= 11,
            lengths@.len() == 256,
            lens == huffman::lens_of(lengths@),
            bl_count@.len() == 12,
            bl_count@[0] == 0,
            forall|b: int|
                1 <= b < 12 ==> #[trigger] bl_count@[b] == fse_table::occurrences(lens, b, 256),
            forall|b: int| 0 <= b < 12 ==> #[trigger] bl_count@[b] <= 256,
            next_code@.len() == 12,
            forall|k: int|
                0 <= k < b ==> #[trigger] next_code@[k] == first_code(lengths@, k as nat),
        decreases actual_max + 1 - b,
    {
        proof {
            lemma_first_code_bound(lengths@, (b - 1) as nat);
            lemma2_to64();
            bits::lemma_pow2_monotone((b - 1) as nat, 11);
            assert(next_code@[b - 1] == first_code(lengths@, (b - 1) as nat));
            assert(bl_count@[b - 1] <= 256);
        }
        next_code[b] = (next_code[b - 1] + bl_count[b - 1]) * 2;
        b = b + 1;
    }
    let mut codes: Vec<HufCode> = Vec::new();
    s = 0;
    while s < 256
        invariant
            s <= 256,
            lengths@.len() == 256,
            lens == huffman::lens_of(lengths@),
            actual_max <= 11,
            forall|s: int| 0 <= s < 256 ==> #[trigger] lengths@[s] <= actual_max,
            next_code@.len() == 12,
            forall|k: int|
                1 <= k <= actual_max ==> #[trigger] next_code@[k] == first_code(
                    lengths@,
                    k as nat,
                ) + fse_table::occurrences(lens, k, s as nat),
            codes@.len() == s,
            forall|i: int| 0 <= i < s ==> #[trigger] codes@[i] == code_for(lengths@, i),
        decreases 256 - s,
    {
        let l = lengths[s];
        assert(lengths@[s as int] <= actual_max);
        if l > 0 {
            proof {
                lemma_first_code_bound(lengths@, l as nat);
                lemma_occurrences_bound(lens, l as int, s as nat);
                lemma2_to64();
                bits::lemma_pow2_monotone(l as nat, 11);
            }
            let code = next_code[l as usize];
            codes.push(HufCode { bits: code, nbits: l });
            next_code[l as usize] = code + 1;
        } else {
            codes.push(HufCode { bits: 0, nbits: 0 });
        }
        s = s + 1;
    }
    assert(codes@ =~= Seq::new(256, |s: int| code_for(lengths@, s)));
    codes
}

// ---------------------------------------------------------------------------
// Tree description
// ---------------------------------------------------------------------------

/// The highest of the first `n` symbols that has a length; 0 where none has.
pub open spec fn last_symbol(lens: Seq<u8>, n: nat) -> nat
    decreases n,
{
    if n == 0 {
        0
    } else if lens[n - 1] > 0 {
        (n - 1) as nat
    } else {
        last_symbol(lens, (n - 1) as nat)
    }
}

/// The weight of a symbol: 0 where it has no length.
pub open spec fn weight_for(lens: Seq<u8>, max_bits: nat, s: int) -> int {
    if s <= last_symbol(lens, lens.len()) && lens[s] > 0 {
        max_bits + 1 - lens[s]
    } else {
        0
    }
}

/// The number of bytes with weights, and these bytes: two weights each.
pub open spec fn tree_bytes(lens: Seq<u8>, max_bits: nat) -> Seq<u8> {
    let size = (last_symbol(lens, lens.len()) + 2) / 2;
    seq![size as u8] + Seq::new(
        size,
        |i: int|
            (16 * weight_for(lens, max_bits, 2 * i) + weight_for(
                lens,
                max_bits,
                2 * i + 1,
            )) as u8,
    )
}

/// Writes the weights of all symbols up to the last one.
fn encode_tree_description(lengths: &[u8], max_bits: u8) -> (desc: Vec<u8>)
    requires
        lengths@.len() == 256,
        max_bits <= 11,
        forall|s: int| 0 <= s < 256 ==> #[trigger] lengths@[s] <= max_bits,
    ensures
        desc@ == tree_bytes(lengths@, max_bits as nat),
{
    let mut n: usize = 256;
    while n > 0 && lengths[n - 1] == 0
        invariant
            n <= 256,
            lengths@.len() == 256,
            last_symbol(lengths@, 256) == last_symbol(lengths@, n as nat),
        decreases n,
    {
        n = n - 1;
    }
    let max_sym = if n > 0 {
        n - 1
    } else {
        0
    };
    let packed_size = (max_sym + 2) / 2;
    let mut desc: Vec<u8> = Vec::new();
    desc.push(packed_size as u8);
    let mut i: usize = 0;
    while i < packed_size
        invariant
            i <= packed_size,
            max_sym < 256,
            packed_size == (max_sym + 2) / 2,
            max_sym == last_symbol(lengths@, 256),
            lengths@.len() == 256,
            max_bits <= 11,
            forall|s: int| 0 <= s < 256 ==> #[trigger] lengths@[s] <= max_bits,
            desc@.len() == i + 1,
            forall|k: int|
                0 <= k <= i ==> #[trigger] desc@[k] == tree_bytes(lengths@, max_bits as nat)[k],
        decreases packed_size - i,
    {
        let l0 = lengths[2 * i];
        assert(lengths@[2 * i as int] <= max_bits);
        let w0 = if l0 > 0 {
            max_bits + 1 - l0
        } else {
            0
        };
        let w1 = if 2 * i + 1 <= max_sym {
            let l1 = lengths[2 * i + 1];
            assert(lengths@[2 * i as int + 1] <= max_bits);
            if l1 > 0 {
                max_bits + 1 - l1
            } else {
                0
            }
        } else {
            0
        };
        desc.push(16 * w0 + w1);
        i = i + 1;
        assert(desc@[i as int] == tree_bytes(lengths@, max_bits as nat)[i as int]);
    }
    assert(desc@ =~= tree_bytes(lengths@, max_bits as nat));
    desc
}

/// Builds codes from symbol frequencies.  Gives the codes of the 256 symbols, the
/// longest length, and the description of the tree.  Fewer than two symbols have no
/// codes.
pub fn build_huffman_table(counts: &[u32; 256]) -> (r: Option<(Vec<HufCode>, u8, Vec<u8>)>)
    ensures
        ({
            let n = normalize::used_count(counts@, 256);
            let lens = lengths_for(counts@, max_length(n));
            match r {
                None => n <= 1,
                Some((codes, max_bits, tree)) => {
                    &&& n > 1
                    &&& codes@ == Seq::new(256, |s: int| code_for(lens, s))
                    &&& max_bits == huf_lengths::longest(lens, 256)
                    &&& tree@ == tree_bytes(lens, max_bits as nat)
                },
            }
        }),
{
    let n = count_used(counts);
    proof {
        normalize::lemma_used_bound(counts@, 256);
    }
    if n <= 1 {
        return None;
    }
    let h = high_bit_u64(n as u64);
    proof {
        bits::lemma_high_bit(n as nat);
        lemma2_to64();
        if h == 0 {
            assert(n < 2);
        }
    }
    let max_bits: u8 = if h + 2 < 11 {
        (h + 2) as u8
    } else {
        11
    };
    let lengths = assign_lengths(counts, max_bits);
    let actual_max = longest_code(&lengths);
    proof {
        huf_lengths::lemma_longest(lengths@, 256);
        let top = choose|i: int|
            0 <= i < 256 && #[trigger] lengths@[i] == huf_lengths::longest(lengths@, 256);
        assert(lengths@[top] <= max_bits);
    }
    let codes = assign_simple_codes(&lengths, actual_max);
    let tree = encode_tree_description(&lengths, actual_max);
    Some((codes, actual_max, tree))
}

} // verus!
