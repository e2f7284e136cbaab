//! What tables are made for counts: how cells are shared out, what codes are estimated to
//! cost, and which symbols have short codes.
use crate::bits;
use crate::cost;
use crate::cost::ONE_BIT;
use crate::fse_table;
use crate::huf;
use crate::huf_lengths;
use crate::huf_weights;
use crate::huffman;
use crate::normalize;
use vstd::arithmetic::div_mod::*;
use vstd::arithmetic::power2::*;
use vstd::prelude::*;

verus! {

// ---------------------------------------------------------------------------
// Shares of cells
// ---------------------------------------------------------------------------

proof fn lemma_kept(norm: Seq<int>, keep: int, remaining: int, s: nat, i: int)
    requires
        s <= norm.len(),
        0 <= i < norm.len(),
        i == keep || norm[i] <= 1,
    ensures
        normalize::take_back(norm, keep, remaining, s).len() == norm.len(),
        normalize::take_back(norm, keep, remaining, s)[i] == norm[i],
    decreases s,
{
    if s > 0 && remaining > 0 {
        let j = s - 1;
        if j == keep || norm[j] <= 1 {
            lemma_kept(norm, keep, remaining, j as nat, i);
        } else {
            let take = if remaining < norm[j] - 1 {
                remaining
            } else {
                norm[j] - 1
            };
            lemma_kept(norm.update(j, norm[j] - take), keep, remaining - take, j as nat, i);
        }
    }
}

proof fn lemma_largest(counts: Seq<u32>, n: nat)
    requires
        1 <= n <= counts.len(),
    ensures
        normalize::largest_of(counts, n) < n,
        forall|s: int|
            0 <= s < n ==> #[trigger] counts[s] <= counts[normalize::largest_of(
                counts,
                n,
            ) as int],
        forall|s: int|
            0 <= s < normalize::largest_of(counts, n) ==> #[trigger] counts[s]
                < counts[normalize::largest_of(counts, n) as int],
    decreases n,
{
    if n > 1 {
        lemma_largest(counts, (n - 1) as nat);
    }
}

/// A symbol that would have less than one cell has the low probability, unless no symbol is
/// more frequent.
pub proof fn lemma_rare_symbol(counts: Seq<u32>, size: nat, s: int, t: int)
    requires
        0 <= s < counts.len(),
        0 <= t < counts.len(),
        0 < counts[s] < counts[t],
        counts[s] * size < normalize::count_sum(counts, counts.len()),
    ensures
        normalize::normalized(counts, size)[s] == -1,
{
    let n = counts.len();
    let total = normalize::count_sum(counts, n);
    let shares = Seq::new(n, |s: int| normalize::share(counts[s] as nat, size, total));
    let largest = normalize::largest_of(counts, n) as int;
    lemma_largest(counts, n);
    assert(counts[t] <= counts[largest]);
    lemma_basic_div((counts[s] as nat * size) as int, total as int);
    assert(shares[s] == -1);
    let adjusted = shares[largest] + size - fse_table::cells_before(shares, n);
    if adjusted < 1 {
        lemma_kept(shares.update(largest, 1), largest, 1 - adjusted, n, s);
    }
}

proof fn lemma_floor_sum(counts: Seq<u32>, size: nat, total: nat, n: nat)
    requires
        n <= counts.len(),
        total > 0,
        forall|s: int|
            0 <= s < counts.len() ==> #[trigger] counts[s] == 0 || counts[s] * size >= total,
    ensures
        fse_table::cells_before(
            Seq::new(counts.len(), |s: int| normalize::share(counts[s] as nat, size, total)),
            n,
        ) * total <= normalize::count_sum(counts, n) * size,
    decreases n,
{
    let shares = Seq::new(
        counts.len(),
        |s: int| normalize::share(counts[s] as nat, size, total),
    );
    if n > 0 {
        lemma_floor_sum(counts, size, total, (n - 1) as nat);
        let a = fse_table::cells_before(shares, (n - 1) as nat);
        let c = fse_table::cells(shares[n - 1]);
        let sum = normalize::count_sum(counts, (n - 1) as nat);
        let k = counts[n - 1] as nat;
        assert((a + c) * total == a * total + c * total) by (nonlinear_arith);
        assert((sum + k) * size == sum * size + k * size) by (nonlinear_arith);
        assert(c * total <= k * size) by {
            if k > 0 {
                lemma_share(k, size, total);
            }
        }
    } else {
        assert(0 * total == 0 && 0 * size == 0) by (nonlinear_arith);
    }
}

proof fn lemma_share(count: nat, size: nat, total: nat)
    requires
        count * size >= total,
        total > 0,
        count > 0,
    ensures
        normalize::share(count, size, total) >= 1,
        normalize::share(count, size, total) * total <= count * size,
        count * size < (normalize::share(count, size, total) + 1) * total,
{
    let x = (count * size) as int;
    let q = x / total as int;
    lemma_fundamental_div_mod(x, total as int);
    lemma_mod_bound(x, total as int);
    assert(q >= 1) by (nonlinear_arith)
        requires
            x == total * q + x % (total as int),
            x >= total,
            0 <= x % (total as int) < total,
            total > 0,
    ;
    assert(q * total <= x < (q + 1) * total) by (nonlinear_arith)
        requires
            x == total * q + x % (total as int),
            0 <= x % (total as int) < total,
    ;
}

/// Where every symbol that occurs has a whole cell or more, each has its share of the cells,
/// rounded down; what rounding leaves goes to the first of the most frequent.
pub proof fn lemma_shares(counts: Seq<u32>, size: nat, s: int)
    requires
        0 <= s < counts.len(),
        counts[s] > 0,
        forall|t: int|
            0 <= t < counts.len() ==> #[trigger] counts[t] == 0 || counts[t] * size
                >= normalize::count_sum(counts, counts.len()),
    ensures
        ({
            let total = normalize::count_sum(counts, counts.len()) as int;
            let cells = normalize::normalized(counts, size)[s];
            &&& cells * total <= counts[s] * size || (forall|t: int|
                0 <= t < counts.len() ==> #[trigger] counts[t] <= counts[s] && (t < s ==> counts[t]
                    < counts[s]))
            &&& counts[s] * size < (cells + 1) * total
        }),
{
    let n = counts.len();
    let total = normalize::count_sum(counts, n);
    normalize::lemma_count_sum_member(counts, n, s);
    let shares = Seq::new(n, |s: int| normalize::share(counts[s] as nat, size, total));
    let largest = normalize::largest_of(counts, n) as int;
    lemma_largest(counts, n);
    let all = fse_table::cells_before(shares, n) as int;
    lemma_floor_sum(counts, size, total, n);
    assert(all <= size) by (nonlinear_arith)
        requires
            all * total <= total * size,
            total > 0,
    ;
    lemma_share(counts[s] as nat, size, total);
    assert(counts[largest] >= counts[s]);
    lemma_share(counts[largest] as nat, size, total);
    let adjusted = shares[largest] + size - all;
    assert(adjusted >= shares[largest] >= 1);
    if s == largest {
        assert((adjusted + 1) * total >= (shares[s] + 1) * total) by (nonlinear_arith)
            requires
                adjusted >= shares[s],
                total > 0,
        ;
    }
}

// ---------------------------------------------------------------------------
// Logarithms
// ---------------------------------------------------------------------------

proof fn lemma_digits_monotone(a: nat, b: nat, k: nat)
    requires
        a <= b,
    ensures
        cost::log2_digits(a, k) <= cost::log2_digits(b, k),
    decreases k,
{
    if k > 0 {
        let x = a * a / 0x8000_0000_0000_0000;
        let y = b * b / 0x8000_0000_0000_0000;
        assert(a * a <= b * b) by (nonlinear_arith)
            requires
                a <= b,
        ;
        assert(x <= y) by {
            lemma_div_is_ordered((a * a) as int, (b * b) as int, 0x8000_0000_0000_0000);
        }
        let j = (k - 1) as nat;
        lemma_digits_monotone(x, y, j);
        lemma_digits_monotone(x / 2, y / 2, j);
        cost::lemma_log2_digits_bound(x, j);
    }
}

proof fn lemma_log2_range(v: nat)
    requires
        v > 0,
    ensures
        bits::high_bit(v) * ONE_BIT <= cost::log2_fixed(v) < (bits::high_bit(v) + 1) * ONE_BIT,
{
    lemma2_to64();
    lemma2_to64_rest();
    cost::lemma_log2_digits_bound(v * pow2((63 - bits::high_bit(v)) as nat), 40);
}

/// The logarithm of `v` lies between the exponents of the powers of two around `v`, and exactly
/// on that of a power of two.
pub proof fn lemma_log2_between(v: nat, e: nat)
    requires
        pow2(e) <= v < pow2(e + 1),
        e < 64,
    ensures
        ONE_BIT == pow2(40),
        e * ONE_BIT <= cost::log2_fixed(v) < (e + 1) * ONE_BIT,
        v == pow2(e) ==> cost::log2_fixed(v) == e * ONE_BIT,
{
    lemma_pow2_pos(e);
    bits::lemma_high_bit_unique(v, e);
    lemma_log2_range(v);
    lemma2_to64_rest();
    if v == pow2(e) {
        cost::lemma_log2_of_power(e);
    }
}

/// A larger number has no smaller logarithm.
pub proof fn lemma_log2_grows(a: nat, b: nat)
    requires
        0 < a <= b <= u32::MAX,
    ensures
        cost::log2_fixed(a) <= cost::log2_fixed(b),
{
    let h = bits::high_bit(a);
    let k = bits::high_bit(b);
    bits::lemma_high_bit(a);
    bits::lemma_high_bit(b);
    if h > k {
        bits::lemma_pow2_monotone(k + 1, h);
    }
    if h == k {
        let p = pow2((63 - h) as nat);
        assert(a * p <= b * p) by (nonlinear_arith)
            requires
                a <= b,
        ;
        lemma_digits_monotone(a * p, b * p, 40);
    } else {
        lemma_log2_range(a);
        lemma_log2_range(b);
        assert((h + 1) * ONE_BIT <= k * ONE_BIT) by (nonlinear_arith)
            requires
                h + 1 <= k,
        ;
    }
}

/// Twice a number has a logarithm of one bit more.
pub proof fn lemma_log2_doubles(v: nat)
    requires
        0 < v <= u32::MAX,
    ensures
        cost::log2_fixed(2 * v) == cost::log2_fixed(v) + ONE_BIT,
{
    let h = bits::high_bit(v);
    bits::lemma_high_bit(v);
    lemma_pow2_unfold(h + 1);
    lemma_pow2_unfold(h + 2);
    bits::lemma_high_bit_unique(2 * v, h + 1);
    lemma2_to64();
    lemma2_to64_rest();
    if h >= 32 {
        bits::lemma_pow2_monotone(32, h);
    }
    let p = pow2((62 - h) as nat);
    lemma_pow2_unfold((63 - h) as nat);
    assert((2 * v) * p == v * (2 * p)) by (nonlinear_arith);
    assert((h + 1) * ONE_BIT == h * ONE_BIT + ONE_BIT) by (nonlinear_arith);
}

/// The first digit behind the point tells whether the square of a number reaches the next
/// power of two but one.
pub proof fn lemma_log2_half(v: nat, e: nat)
    requires
        pow2(e) <= v < pow2(e + 1),
        e < 32,
    ensures
        2 * cost::log2_fixed(v) >= (2 * e + 1) * ONE_BIT <==> v * v >= pow2(2 * e + 1),
{
    lemma_pow2_pos(e);
    bits::lemma_high_bit_unique(v, e);
    lemma2_to64();
    lemma2_to64_rest();
    let p = pow2((63 - e) as nat);
    let m = v * p;
    let square = m * m / 0x8000_0000_0000_0000;
    let top = cost::log2_digits(m, 40);
    cost::lemma_log2_digits_bound(square, 39);
    lemma_pow2_adds((63 - e) as nat, (63 - e) as nat);
    lemma_pow2_adds(2 * e + 1, (126 - 2 * e) as nat);
    lemma_pow2_adds(63, 64);
    let r = pow2((126 - 2 * e) as nat) as int;
    assert(m * m == (v * v) * r) by (nonlinear_arith)
        requires
            m == v * p,
            r == p * p,
    ;
    let edge = pow2(2 * e + 1) as int;
    assert(edge * r == 0x8000_0000_0000_0000 * 0x1_0000_0000_0000_0000);
    lemma_pow2_pos((126 - 2 * e) as nat);
    if v * v >= edge {
        assert((v * v) * r >= edge * r) by (nonlinear_arith)
            requires
                v * v >= edge,
                r > 0,
        ;
        lemma_div_is_ordered(
            edge * r,
            (m * m) as int,
            0x8000_0000_0000_0000,
        );
        assert(square >= 0x1_0000_0000_0000_0000);
    } else {
        assert((v * v) * r < edge * r) by (nonlinear_arith)
            requires
                v * v < edge,
                r > 0,
        ;
        assert(square < 0x1_0000_0000_0000_0000);
    }
    assert((2 * e + 1) * ONE_BIT == 2 * (e * ONE_BIT) + ONE_BIT) by (nonlinear_arith);
}

// ---------------------------------------------------------------------------
// Costs
// ---------------------------------------------------------------------------

/// A symbol that has one in `2^k` of the cells, or occurs once in `2^k` times, is estimated to
/// take `k` bits each time.
pub proof fn lemma_cost_of_power(
    counts: Seq<u32>,
    norm: Seq<i16>,
    log: nat,
    total: nat,
    n: nat,
    a: nat,
    b: nat,
)
    requires
        0 < n <= counts.len(),
        n <= norm.len(),
        counts[n - 1] > 0,
        a <= b < 64,
        b == log,
    ensures
        norm[n - 1] == pow2(a) ==> cost::table_cost(counts, norm, log, n) == cost::table_cost(
            counts,
            norm,
            log,
            (n - 1) as nat,
        ) + counts[n - 1] * ((b - a) * ONE_BIT),
        norm[n - 1] == -1 ==> cost::table_cost(counts, norm, log, n) == cost::table_cost(
            counts,
            norm,
            log,
            (n - 1) as nat,
        ) + counts[n - 1] * (b * ONE_BIT),
        counts[n - 1] == pow2(a) && total == pow2(b) ==> cost::entropy_cost(counts, total, n)
            == cost::entropy_cost(counts, total, (n - 1) as nat) + counts[n - 1] * ((b - a)
            * ONE_BIT),
{
    cost::lemma_log2_of_power(a);
    cost::lemma_log2_of_power(b);
    cost::lemma_log2_of_power(0);
    lemma2_to64();
    lemma_pow2_pos(a);
    assert((b - a) * ONE_BIT == b * ONE_BIT - a * ONE_BIT) by (nonlinear_arith);
    assert(b * ONE_BIT >= a * ONE_BIT) by (nonlinear_arith)
        requires
            b >= a,
    ;
}

/// Symbols that do not occur cost nothing, and one symbol alone needs no bits.
pub proof fn lemma_cost_of_nothing(
    counts: Seq<u32>,
    norm: Seq<i16>,
    log: nat,
    total: nat,
    n: nat,
)
    requires
        0 < n <= counts.len(),
    ensures
        cost::table_cost(counts, norm, log, 0) == 0,
        cost::entropy_cost(counts, total, 0) == 0,
        counts[n - 1] == 0 ==> cost::table_cost(counts, norm, log, n) == cost::table_cost(
            counts,
            norm,
            log,
            (n - 1) as nat,
        ),
        counts[n - 1] == 0 || counts[n - 1] == total ==> cost::entropy_cost(counts, total, n)
            == cost::entropy_cost(counts, total, (n - 1) as nat),
{
    let c = counts[n - 1] as nat;
    assert(c * 0 == 0) by (nonlinear_arith);
}

/// The rarer of two symbols, or the one with fewer cells, costs no less each time.
pub proof fn lemma_cost_of_rare(a: nat, b: nat, total: nat)
    requires
        0 < a <= b <= total,
        total <= u32::MAX,
    ensures
        cost::excess(cost::log2_fixed(total), cost::log2_fixed(a)) >= cost::excess(
            cost::log2_fixed(total),
            cost::log2_fixed(b),
        ),
{
    lemma_log2_grows(a, b);
    lemma_log2_grows(b, total);
}

/// Part of a bit is a bit.
pub proof fn lemma_whole_bits(x: int)
    ensures
        x <= 0 ==> cost::whole_bits(x) == 0,
        x > 0 ==> (cost::whole_bits(x) - 1) * ONE_BIT < x <= cost::whole_bits(x) * ONE_BIT,
{
}

// ---------------------------------------------------------------------------
// Code lengths
// ---------------------------------------------------------------------------

/// An estimated code length `b`, where it is below the longest, says that one in `2^(b-1)`
/// symbols or fewer is this one, and more than one in `2^b`.
pub proof fn lemma_estimated_length(freq: nat, total: nat, max_bits: nat)
    requires
        0 < freq <= total,
        max_bits >= 2,
    ensures
        ({
            let b = huf::ideal_length(freq, total, max_bits);
            &&& 1 <= b <= max_bits
            &&& freq * pow2((b - 1) as nat) <= total
            &&& b < max_bits ==> total < freq * pow2(b)
        }),
{
    let q = total / freq;
    let rest = total as int % (freq as int);
    lemma_fundamental_div_mod(total as int, freq as int);
    lemma_mod_bound(total as int, freq as int);
    assert(q >= 1) by (nonlinear_arith)
        requires
            total == freq * q + rest,
            rest < freq,
            total >= freq,
            freq > 0,
    ;
    bits::lemma_high_bit(q);
    lemma2_to64();
    let h = bits::high_bit(q);
    let b = huf::ideal_length(freq, total, max_bits);
    if b - 1 < h {
        bits::lemma_pow2_monotone((b - 1) as nat, h);
    }
    assert(pow2((b - 1) as nat) <= q);
    assert(freq * pow2((b - 1) as nat) <= total) by (nonlinear_arith)
        requires
            pow2((b - 1) as nat) <= q,
            freq * q <= total,
    ;
    if b < max_bits {
        assert(q < pow2(b));
        assert(total < freq * pow2(b)) by (nonlinear_arith)
            requires
                q + 1 <= pow2(b),
                total < freq * q + freq,
        ;
    }
}

/// The longest estimated length is one more than a code with all lengths equal would take, but
/// at most eleven.
pub proof fn lemma_longest_estimate(n: nat)
    requires
        n >= 1,
    ensures
        huf::max_length(n) <= 11,
        n < pow2((huf::max_length(n) - 1) as nat) || huf::max_length(n) == 11,
        huf::max_length(n) >= 2 && pow2((huf::max_length(n) - 2) as nat) <= n,
{
    bits::lemma_high_bit(n);
    if huf::max_length(n) == 11 {
        bits::lemma_pow2_monotone(9, bits::high_bit(n));
    }
}

/// Lengths of up to eleven bits stay as they are.
pub proof fn lemma_short_codes_stay(nbits: Seq<u8>)
    requires
        forall|i: int| 0 <= i < nbits.len() ==> #[trigger] nbits[i] <= 11,
    ensures
        huf_lengths::limited(nbits) == nbits,
{
    huf_lengths::lemma_longest(nbits, nbits.len());
}

/// The code space of lengths, in units of the longest.
pub open spec fn space(lens: Seq<u8>, max_bits: nat, n: int) -> int
    decreases n,
{
    if n <= 0 {
        0
    } else {
        space(lens, max_bits, n - 1) + if lens[n - 1] > 0 {
            pow2((max_bits - lens[n - 1]) as nat) as int
        } else {
            0
        }
    }
}

proof fn lemma_same_space(lens: Seq<u8>, max_bits: nat, n: nat)
    requires
        n <= lens.len(),
    ensures
        space(lens, max_bits, n as int) == huffman::code_space(
            huffman::lens_of(lens),
            max_bits,
            n,
        ),
    decreases n,
{
    if n > 0 {
        lemma_same_space(lens, max_bits, (n - 1) as nat);
    }
}

/// Estimated lengths are taken where they fill the code space, and else every symbol that
/// occurs has the longest.
pub proof fn lemma_lengths_taken(counts: Seq<u32>, max_bits: nat, s: int)
    requires
        0 <= s < counts.len(),
        max_bits <= 11,
        counts[s] < u32::MAX,
    ensures
        ({
            let ideal = huf::ideal_lengths(counts, max_bits);
            let full = space(ideal, max_bits, ideal.len() as int) == pow2(max_bits);
            huf::lengths_for(counts, max_bits)[s] == if counts[s] == 0 {
                0
            } else if full {
                huf::ideal_length(
                    counts[s] as nat,
                    normalize::count_sum(counts, counts.len()),
                    max_bits,
                ) as int
            } else {
                max_bits as int
            }
        }),
{
    let ideal = huf::ideal_lengths(counts, max_bits);
    lemma_same_space(ideal, max_bits, ideal.len());
    let total = normalize::count_sum(counts, counts.len());
    if counts[s] > 0 {
        let b = huf::ideal_length(counts[s] as nat, total, max_bits);
        assert(b <= 255);
        assert(ideal[s] == b);
    }
}

/// Codes of one length are numbered in the order of their symbols.
pub proof fn lemma_code_numbers(lens: Seq<u8>, s: int, u: int)
    requires
        lens.len() == 256,
        0 <= s < 256,
        0 <= u < 256,
        0 < lens[s] <= 11,
        0 < lens[u] <= 11,
        s < u,
        lens[s] == lens[u],
        forall|k: int| s < k < u ==> #[trigger] lens[k] != lens[s],
    ensures
        huf::code_for(lens, u).nbits == lens[u],
        huf::code_for(lens, s).bits + 1 == huf::code_for(lens, u).bits,
{
    let all = huffman::lens_of(lens);
    let b = lens[s] as int;
    lemma_none_between(all, b, (s + 1) as nat, u as nat);
    huf::lemma_first_code_bound(lens, b as nat);
    huf::lemma_occurrences_bound(all, b, u as nat);
    lemma2_to64();
    bits::lemma_pow2_monotone(b as nat, 11);
}

proof fn lemma_none_between(t: Seq<int>, s: int, a: nat, b: nat)
    requires
        a <= b,
        forall|k: int| a <= k < b ==> #[trigger] t[k] != s,
    ensures
        fse_table::occurrences(t, s, a) == fse_table::occurrences(t, s, b),
    decreases b,
{
    if a < b {
        assert(t[b - 1] != s);
        lemma_none_between(t, s, a, (b - 1) as nat);
    }
}

/// The first code of a length is twice the number behind the last code of the length before.
pub proof fn lemma_first_codes(lens: Seq<u8>, b: nat)
    requires
        lens.len() == 256,
        1 <= b <= 10,
    ensures
        huf::first_code(lens, 0) == 0,
        huf::first_code(lens, 1) == 0,
        huf::first_code(lens, b + 1) == 2 * (huf::first_code(lens, b) + fse_table::occurrences(
            huffman::lens_of(lens),
            b as int,
            256,
        )),
{
    assert(huf::first_code(lens, 0) == 0);
}

// ---------------------------------------------------------------------------
// Shares of weights
// ---------------------------------------------------------------------------

/// Weights share 64 cells: no weight but the last of the most frequent has more than its share
/// rounded down, or one cell; and all have that where the cells suffice.
pub proof fn lemma_weight_shares(counts: Seq<u32>, total: nat, s: int)
    requires
        0 <= s < counts.len() <= 13,
        counts[s] > 0,
        total == normalize::count_sum(counts, counts.len()),
    ensures
        ({
            let floor = counts[s] as int * 64 / total as int;
            let least = if floor < 1 {
                1
            } else {
                floor
            };
            let cells = huf_weights::weight_norm(counts, total)[s];
            let shares = Seq::new(
                counts.len(),
                |k: int| huf_weights::weight_share(counts[k] as nat, total),
            );
            &&& cells <= least || (forall|t: int|
                0 <= t < counts.len() ==> #[trigger] counts[t] <= counts[s] && (s < t ==> counts[t]
                    < counts[s]))
            &&& shares[s] == least
            &&& fse_table::cells_before(shares, counts.len()) <= 64 ==> cells >= least
        }),
{
    let shares = Seq::new(
        counts.len(),
        |k: int| huf_weights::weight_share(counts[k] as nat, total),
    );
    let dist = fse_table::cells_before(shares, counts.len());
    normalize::lemma_count_sum_member(counts, counts.len(), s);
    if dist < 64 {
        lemma_last_largest(counts, counts.len());
    } else {
        assert(normalize::covers(shares, counts));
        huf_weights::lemma_shrink(shares, counts, dist);
    }
}

proof fn lemma_last_largest(counts: Seq<u32>, n: nat)
    requires
        1 <= n <= counts.len(),
    ensures
        huf_weights::last_largest(counts, n) < n,
        forall|i: int|
            0 <= i < n ==> #[trigger] counts[i] <= counts[huf_weights::last_largest(
                counts,
                n,
            ) as int],
        forall|i: int|
            huf_weights::last_largest(counts, n) < i < n ==> #[trigger] counts[i]
                < counts[huf_weights::last_largest(counts, n) as int],
    decreases n,
{
    if n > 1 {
        lemma_last_largest(counts, (n - 1) as nat);
    }
}

proof fn lemma_given_back(norm: Seq<int>, keep: int, remaining: int, s: nat, i: int)
    requires
        s <= norm.len(),
        0 <= i < norm.len(),
    ensures
        normalize::take_back(norm, keep, remaining, s).len() == norm.len(),
        normalize::take_back(norm, keep, remaining, s)[i] <= norm[i],
    decreases s,
{
    if s > 0 && remaining > 0 {
        let j = s - 1;
        if j == keep || norm[j] <= 1 {
            lemma_given_back(norm, keep, remaining, j as nat, i);
        } else {
            let take = if remaining < norm[j] - 1 {
                remaining
            } else {
                norm[j] - 1
            };
            lemma_given_back(norm.update(j, norm[j] - take), keep, remaining - take, j as nat, i);
        }
    }
}

/// No symbol but a most frequent one has more cells than its share.
pub proof fn lemma_no_more_than_share(counts: Seq<u32>, size: nat, s: int, t: int)
    requires
        0 <= s < counts.len(),
        0 <= t < counts.len(),
        0 < counts[s] < counts[t],
        counts[s] * size >= normalize::count_sum(counts, counts.len()),
    ensures
        normalize::normalized(counts, size)[s] * normalize::count_sum(counts, counts.len())
            <= counts[s] * size,
{
    let n = counts.len();
    let total = normalize::count_sum(counts, n);
    normalize::lemma_count_sum_member(counts, n, s);
    let shares = Seq::new(n, |s: int| normalize::share(counts[s] as nat, size, total));
    let largest = normalize::largest_of(counts, n) as int;
    lemma_largest(counts, n);
    assert(counts[t] <= counts[largest]);
    lemma_share(counts[s] as nat, size, total);
    let adjusted = shares[largest] + size - fse_table::cells_before(shares, n);
    let cells = normalize::normalized(counts, size)[s];
    if adjusted < 1 {
        lemma_given_back(shares.update(largest, 1), largest, 1 - adjusted, n, s);
    }
    assert(cells <= shares[s]);
    assert(cells * total <= shares[s] * total) by (nonlinear_arith)
        requires
            cells <= shares[s],
            total >= 0,
    ;
}

/// Cells are given back by the highest symbols first, down to one cell each.
pub proof fn lemma_highest_give_first(
    norm: Seq<int>,
    keep: int,
    remaining: int,
    s: nat,
    i: int,
    j: int,
)
    requires
        s <= norm.len(),
        0 <= i < j < s,
        j != keep,
        normalize::take_back(norm, keep, remaining, s)[i] < norm[i],
    ensures
        normalize::take_back(norm, keep, remaining, s)[j] <= 1,
    decreases s,
{
    if s > 0 && remaining > 0 {
        let k = s - 1;
        if k == keep || norm[k] <= 1 {
            if j == k {
                lemma_kept(norm, keep, remaining, k as nat, j);
            } else {
                lemma_highest_give_first(norm, keep, remaining, k as nat, i, j);
            }
        } else {
            let take = if remaining < norm[k] - 1 {
                remaining
            } else {
                norm[k] - 1
            };
            let next = norm.update(k, norm[k] - take);
            if j == k {
                if take == norm[k] - 1 {
                    lemma_kept(next, keep, remaining - take, k as nat, j);
                } else {
                    assert(remaining - take == 0);
                    assert(normalize::take_back(next, keep, 0, k as nat) == next);
                }
            } else {
                lemma_highest_give_first(next, keep, remaining - take, k as nat, i, j);
            }
        }
    }
}

proof fn lemma_last_symbol(lens: Seq<u8>, n: nat, last: int)
    requires
        0 <= last < n <= lens.len(),
        lens[last] > 0,
        forall|i: int| last < i < n ==> #[trigger] lens[i] == 0,
    ensures
        huf::last_symbol(lens, n) == last,
    decreases n,
{
    if last < n - 1 {
        assert(lens[n - 1] == 0);
        lemma_last_symbol(lens, (n - 1) as nat, last);
    }
}

/// The description of a tree: how many bytes of weights, and for each symbol up to the last
/// one half a byte, the high half first, with its weight.
pub proof fn lemma_tree_bytes(lens: Seq<u8>, max_bits: nat, last: int, s: int)
    requires
        lens.len() == 256,
        max_bits <= 11,
        forall|i: int| 0 <= i < 256 ==> #[trigger] lens[i] <= max_bits,
        0 <= s <= last < 256,
        lens[last] > 0,
        forall|i: int| last < i < 256 ==> #[trigger] lens[i] == 0,
    ensures
        ({
            let tree = huf::tree_bytes(lens, max_bits);
            let weight = if lens[s] == 0 {
                0
            } else {
                max_bits + 1 - lens[s]
            };
            &&& tree.len() == 2 + last / 2
            &&& tree[0] == 1 + last / 2
            &&& weight == if s % 2 == 0 {
                tree[1 + s / 2] / 16
            } else {
                tree[1 + s / 2] % 16
            }
        }),
{
    lemma_last_symbol(lens, 256, last);
    let k = s / 2;
    let a = huf::weight_for(lens, max_bits, 2 * k);
    let b = huf::weight_for(lens, max_bits, 2 * k + 1);
    assert(0 <= a <= 11) by {
        if 2 * k <= last {
            assert(lens[2 * k] <= max_bits);
        }
    }
    assert(0 <= b <= 11) by {
        if 2 * k + 1 <= last {
            assert(lens[2 * k + 1] <= max_bits);
        }
    }
    assert(huf::tree_bytes(lens, max_bits)[1 + k] == (16 * a + b) as u8);
    assert(s == 2 * k || s == 2 * k + 1);
}

} // verus!
