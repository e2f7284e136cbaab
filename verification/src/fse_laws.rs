//! What an FSE table is: where the symbols stand, where each cell leads, and how a table is
//! described.
use crate::bit_laws;
use crate::bitreader;
use crate::bits;
use crate::error::DecodeError;
use crate::fse_decode;
use crate::fse_decode::{FseHeader, FseTab};
use crate::fse_table;
use crate::sequences;
use vstd::arithmetic::div_mod::*;
use vstd::arithmetic::power2::*;
use vstd::prelude::*;

verus! {

// ---------------------------------------------------------------------------
// Symbols
// ---------------------------------------------------------------------------

/// The sum of the positive probabilities of the symbols below `s`.
pub open spec fn positives(probs: Seq<int>, s: int) -> int
    decreases s,
{
    if s <= 0 {
        0
    } else {
        positives(probs, s - 1) + if probs[s - 1] > 0 {
            probs[s - 1]
        } else {
            0
        }
    }
}

/// The number of symbols below `s` with the low probability -1.
pub open spec fn lows(probs: Seq<int>, s: int) -> int
    decreases s,
{
    if s <= 0 {
        0
    } else {
        lows(probs, s - 1) + if probs[s - 1] == -1 {
            1int
        } else {
            0
        }
    }
}

/// A distribution of `2^log` cells over at most 256 symbols: each has a positive probability,
/// none, or the low probability of one cell.
pub open spec fn shares_cells(probs: Seq<int>, log: nat) -> bool {
    &&& 4 <= log <= 15
    &&& 0 < probs.len() <= 256
    &&& forall|s: int| 0 <= s < probs.len() ==> #[trigger] probs[s] >= -1
    &&& positives(probs, probs.len() as int) + lows(probs, probs.len() as int) == pow2(log)
}

/// Where step `i` of the walk through `size` cells stops: each step goes five eighths of the
/// cells on, and three.
pub open spec fn stop(size: int, i: int) -> int {
    (i * (5 * size / 8 + 3)) % size
}

/// How many of the first `i` steps stop below `m`.
pub open spec fn stops_below(size: int, m: int, i: int) -> int
    decreases i,
{
    if i <= 0 {
        0
    } else {
        stops_below(size, m, i - 1) + if stop(size, i - 1) < m {
            1int
        } else {
            0
        }
    }
}

proof fn lemma_same_sums(probs: Seq<int>, s: nat)
    ensures
        positives(probs, s as int) == fse_table::spread_before(probs, s),
        lows(probs, s as int) == fse_table::low_before(probs, s),
    decreases s,
{
    if s > 0 {
        lemma_same_sums(probs, (s - 1) as nat);
    }
}

proof fn lemma_same_stop(log: nat, i: nat)
    requires
        4 <= log,
    ensures
        stop(pow2(log) as int, i as int) == fse_table::walk(log, i),
{
    let size = pow2(log) as int;
    lemma2_to64();
    lemma_pow2_adds(4, (log - 4) as nat);
    assert(5 * size / 8 + 3 == fse_table::walk_step(log));
}

proof fn lemma_same_stops(log: nat, m: nat, i: nat)
    requires
        4 <= log,
    ensures
        stops_below(pow2(log) as int, m as int, i as int) == fse_table::walk_rank(log, m, i),
    decreases i,
{
    if i > 0 {
        lemma_same_stops(log, m, (i - 1) as nat);
        lemma_same_stop(log, (i - 1) as nat);
    }
}

proof fn lemma_same_distribution(probs: Seq<int>, log: nat)
    ensures
        shares_cells(probs, log) == fse_table::is_distribution(probs, log),
{
    lemma_same_sums(probs, probs.len());
    fse_table::lemma_before_split(probs, probs.len());
}

/// The symbols of low probability stand in the last cells, the first of them in the very
/// last.
pub proof fn lemma_low_cells(probs: Seq<int>, log: nat, s: int)
    requires
        shares_cells(probs, log),
        0 <= s < probs.len(),
        probs[s] == -1,
    ensures
        0 <= pow2(log) - 1 - lows(probs, s) < pow2(log),
        (FseTab { log, probs }).symbol((pow2(log) - 1 - lows(probs, s)) as nat) == s,
{
    let n = probs.len();
    lemma_same_distribution(probs, log);
    lemma_same_sums(probs, s as nat);
    lemma_same_sums(probs, n);
    fse_table::lemma_before_split(probs, n);
    fse_table::lemma_before_monotone(probs, (s + 1) as nat, n);
    fse_table::lemma_low_symbol(probs, s);
    let p = pow2(log) - 1 - lows(probs, s);
    fse_table::lemma_spread_cell(probs, log, p);
}

/// The symbols of positive probability stand in the other cells, in the order in which the
/// walk stops there: the first takes as many of these stops as its probability says, then
/// the next, and so on.
pub proof fn lemma_walk_order(probs: Seq<int>, log: nat, i: int)
    requires
        shares_cells(probs, log),
        0 <= i < pow2(log),
    ensures
        ({
            let size = pow2(log) as int;
            let free = size - lows(probs, probs.len() as int);
            let s = (FseTab { log, probs }).symbol(stop(size, i) as nat);
            &&& 0 <= stop(size, i) < size
            &&& 0 <= s < probs.len()
            &&& stop(size, i) < free ==> positives(probs, s) <= stops_below(size, free, i)
                < positives(probs, s) + probs[s]
        }),
{
    let n = probs.len();
    let size = pow2(log) as int;
    lemma_same_distribution(probs, log);
    lemma_same_sums(probs, n);
    fse_table::lemma_before_split(probs, n);
    let m = fse_table::spread_cells(probs);
    lemma_same_stop(log, i as nat);
    lemma_same_stops(log, m, i as nat);
    fse_table::lemma_walk_inverse(log, i as nat);
    let p = stop(size, i);
    fse_table::lemma_spread_cell(probs, log, p);
    let s = (FseTab { log, probs }).symbol(p as nat);
    lemma_same_sums(probs, s as nat);
    lemma_same_sums(probs, (s + 1) as nat);
}

/// Every cell is a stop of the walk.
pub proof fn lemma_all_cells(log: nat, p: int) -> (i: int)
    requires
        4 <= log,
        0 <= p < pow2(log),
    ensures
        0 <= i < pow2(log),
        stop(pow2(log) as int, i) == p,
{
    let i = fse_table::walk_index(log, p as nat);
    fse_table::lemma_walk_index(log, p as nat);
    lemma_same_stop(log, i);
    i as int
}

// ---------------------------------------------------------------------------
// Transitions
// ---------------------------------------------------------------------------

/// How many cells below `p` have the symbol `s`.
pub open spec fn earlier(t: FseTab, s: int, p: int) -> int
    decreases p,
{
    if p <= 0 {
        0
    } else {
        earlier(t, s, p - 1) + if t.symbol((p - 1) as nat) == s {
            1int
        } else {
            0
        }
    }
}

proof fn lemma_same_earlier(t: FseTab, s: int, p: nat)
    ensures
        earlier(t, s, p as int) == fse_table::occurrences(
            fse_table::spread(t.probs, t.log),
            s,
            p,
        ),
    decreases p,
{
    if p > 0 {
        lemma_same_earlier(t, s, (p - 1) as nat);
    }
}

proof fn lemma_transition_value(log: nat, n: nat, k: nat)
    requires
        1 <= n <= pow2(log),
        k < n,
    ensures
        ({
            let t = fse_table::transition(log, n, k);
            &&& pow2(log) <= (n + k) * pow2(t.bits) < 2 * pow2(log)
            &&& t.base == (n + k) * pow2(t.bits) - pow2(log)
        }),
{
    let e = fse_table::ceil_log2(n);
    fse_table::lemma_ceil_log2(n);
    fse_table::lemma_ceil_log2_bound(n, log);
    let w = pow2((log - e) as nat) as int;
    let size = pow2(log) as int;
    let top = pow2(e) as int;
    lemma_pow2_pos((log - e) as nat);
    lemma_pow2_adds(e, (log - e) as nat);
    assert(size == top * w);
    lemma_pow2_unfold((log - e + 1) as nat);
    let double = top - n;
    let x: int = n + k as int;
    if k < double {
        assert(x * (2 * w) - top * w == (n - double + 2 * k) * w) by (nonlinear_arith)
            requires
                x == n + k,
                double == top - n,
        ;
        assert(top * w <= x * (2 * w) < 2 * (top * w)) by (nonlinear_arith)
            requires
                x < top,
                top <= 2 * x,
                w > 0,
        ;
    } else {
        assert(x * w - top * w == (k - double) * w) by (nonlinear_arith)
            requires
                x == n + k,
                double == top - n,
        ;
        assert(top * w <= x * w < 2 * (top * w)) by (nonlinear_arith)
            requires
                top <= x < 2 * top,
                w > 0,
        ;
    }
}

/// Where a cell leads: the cells of a symbol of probability `n` are numbered from `n` on in
/// their order.  The number, shifted up by the bits to read until it is at least the size of
/// the table, is the size of the table and the base line.
pub proof fn lemma_leads_to(t: FseTab, p: nat)
    requires
        shares_cells(t.probs, t.log),
        p < pow2(t.log),
    ensures
        ({
            let s = t.symbol(p);
            let n = if t.probs[s] == -1 {
                1
            } else {
                t.probs[s]
            };
            let x = n + earlier(t, s, p as int);
            let size = pow2(t.log) as int;
            let next = t.next(p);
            &&& 0 <= s < t.probs.len()
            &&& n <= x < 2 * n
            &&& size <= x * pow2(next.bits) < 2 * size
            &&& next.base == x * pow2(next.bits) - size
        }),
{
    lemma_same_distribution(t.probs, t.log);
    fse_decode::lemma_tab_cell(t, p);
    let s = t.symbol(p);
    lemma_same_earlier(t, s, p);
    let n = fse_table::cells(t.probs[s]);
    lemma_transition_value(t.log, n, earlier(t, s, p as int) as nat);
}

/// The next cell is the base line and the number in the next bits.
pub proof fn lemma_next_cell(t: FseTab, p: nat, r: bitreader::RevBits)
    ensures
        t.step(p, r) == t.next(p).base + r.peek(t.next(p).bits),
{
}

// ---------------------------------------------------------------------------
// Predefined distributions
// ---------------------------------------------------------------------------

/// The predefined distribution of the literal length codes, over 64 cells.
pub proof fn lemma_literal_lengths()
    ensures
        sequences::ll_default().log == 6,
        shares_cells(sequences::ll_default().probs, 6),
        sequences::ll_default().probs == seq![
            4int, 3, 2, 2, 2, 2, 2, 2, 2, 2, 2, 2, 2, 1, 1, 1, 2, 2, 2, 2, 2, 2, 2, 2, 2, 3, 2, 1,
            1, 1, 1, 1, -1, -1, -1, -1,
        ],
{
    sequences::lemma_ll_default();
    reveal(sequences::ll_default);
    lemma_same_distribution(sequences::ll_default().probs, 6);
    assert(sequences::ll_default().probs =~= seq![
        4int, 3, 2, 2, 2, 2, 2, 2, 2, 2, 2, 2, 2, 1, 1, 1, 2, 2, 2, 2, 2, 2, 2, 2, 2, 3, 2, 1,
        1, 1, 1, 1, -1, -1, -1, -1,
    ]);
}

/// The predefined distribution of the match length codes, over 64 cells.
pub proof fn lemma_match_lengths()
    ensures
        sequences::ml_default().log == 6,
        shares_cells(sequences::ml_default().probs, 6),
        sequences::ml_default().probs == seq![
            1int, 4, 3, 2, 2, 2, 2, 2, 2, 1, 1, 1, 1, 1, 1, 1, 1, 1, 1, 1, 1, 1, 1, 1, 1, 1, 1, 1,
            1, 1, 1, 1, 1, 1, 1, 1, 1, 1, 1, 1, 1, 1, 1, 1, 1, 1, -1, -1, -1, -1, -1, -1, -1,
        ],
{
    sequences::lemma_ml_default();
    reveal(sequences::ml_default);
    lemma_same_distribution(sequences::ml_default().probs, 6);
    assert(sequences::ml_default().probs =~= seq![
        1int, 4, 3, 2, 2, 2, 2, 2, 2, 1, 1, 1, 1, 1, 1, 1, 1, 1, 1, 1, 1, 1, 1, 1, 1, 1, 1, 1,
        1, 1, 1, 1, 1, 1, 1, 1, 1, 1, 1, 1, 1, 1, 1, 1, 1, 1, -1, -1, -1, -1, -1, -1, -1,
    ]);
}

/// The predefined distribution of the offset codes, over 32 cells.
pub proof fn lemma_offsets()
    ensures
        sequences::of_default().log == 5,
        shares_cells(sequences::of_default().probs, 5),
        sequences::of_default().probs == seq![
            1int, 1, 1, 1, 1, 1, 2, 2, 2, 1, 1, 1, 1, 1, 1, 1, 1, 1, 1, 1, 1, 1, 1, 1, -1, -1, -1,
            -1, -1,
        ],
{
    sequences::lemma_of_default();
    reveal(sequences::of_default);
    lemma_same_distribution(sequences::of_default().probs, 5);
    assert(sequences::of_default().probs =~= seq![
        1int, 1, 1, 1, 1, 1, 2, 2, 2, 1, 1, 1, 1, 1, 1, 1, 1, 1, 1, 1, 1, 1, 1, 1, -1, -1, -1,
        -1, -1,
    ]);
}

// ---------------------------------------------------------------------------
// Table descriptions
// ---------------------------------------------------------------------------

/// The low four bits of a description are the logarithm of the table size, less five; a
/// table that is larger than allowed is refused.
pub proof fn lemma_table_log(src: Seq<u8>, max_log: nat, max_symbol: nat)
    requires
        src.len() > 0,
        max_log <= 20,
    ensures
        ({
            let log = 5 + src[0] % 16;
            &&& log > max_log ==> fse_decode::fse_header(src, max_log, max_symbol) == Err::<
                FseHeader,
                DecodeError,
            >(DecodeError::AccuracyLogTooLarge { log: log as u8, max: max_log as u8 })
            &&& log <= max_log ==> (fse_decode::fse_header(src, max_log, max_symbol) == match
            fse_decode::read_probs(src, 4, pow2(log as nat), 0, Seq::empty()) {
                Err(e) => Err(e),
                Ok((probs, end)) => if probs.len() > max_symbol + 1 {
                    Err(DecodeError::TooManySymbols { symbols: probs.len() as usize })
                } else {
                    Ok(
                        FseHeader {
                            log: log as nat,
                            probs,
                            bytes: if end % 8 == 0 {
                                end / 8
                            } else {
                                end / 8 + 1
                            },
                        },
                    )
                },
            })
        }),
{
    let v = bitreader::forward_read(src, 0, 4)->Ok_0;
    lemma2_to64();
    bit_laws::lemma_forward(src, 0, 4, 0);
    bit_laws::lemma_forward(src, 0, 4, 1);
    bit_laws::lemma_forward(src, 0, 4, 2);
    bit_laws::lemma_forward(src, 0, 4, 3);
    let b = src[0] as int;
    assert(v / 1 % 2 == b / 1 % 2);
    assert(v / 2 % 2 == b / 2 % 2);
    assert(v / 4 % 2 == b / 4 % 2);
    assert(v / 8 % 2 == b / 8 % 2);
    assert(v == b % 16);
}

/// A probability field: with `left` cells to fill its value is at most `left + 1`, and it has
/// the `w` bits that this takes.  As many of the smallest values as the `w` bits can do without
/// have one bit less.  A value is one more than the probability.
pub open spec fn field(left: int, w: nat, u: int) -> (int, int) {
    let half = pow2((w - 1) as nat) as int;
    let short = 2 * half - 1 - (left + 1);
    if u % half < short {
        (u % half, w - 1)
    } else if u < half {
        (u, w as int)
    } else {
        (u - short, w as int)
    }
}

/// A description has one field for each symbol until all cells are filled.  Value 0 is the low
/// probability of one cell, value 1 is probability 0, which repeat flags follow, and any
/// greater value is one more than the probability.
pub proof fn lemma_next_probability(
    src: Seq<u8>,
    idx: nat,
    size: nat,
    filled: nat,
    acc: Seq<int>,
    w: nat,
)
    requires
        filled < size,
        1 <= w <= 64,
        pow2((w - 1) as nat) <= size - filled + 1 < pow2(w),
    ensures
        bitreader::forward_read(src, idx, w) matches Err(e) ==> fse_decode::read_probs(
            src,
            idx,
            size,
            filled,
            acc,
        ) == Err::<(Seq<int>, nat), DecodeError>(e),
        bitreader::forward_read(src, idx, w) matches Ok(u) ==> ({
            let (value, used) = field(size - filled, w, u as int);
            let at = (idx + used) as nat;
            fse_decode::read_probs(src, idx, size, filled, acc) == if value == 0 {
                fse_decode::read_probs(src, at, size, filled + 1, acc.push(-1))
            } else if value == 1 {
                match fse_decode::read_zero_runs(src, at, acc.push(0)) {
                    Err(e) => Err(e),
                    Ok((more, end)) => fse_decode::read_probs(src, end, size, filled, more),
                }
            } else {
                fse_decode::read_probs(
                    src,
                    at,
                    size,
                    (filled + value - 1) as nat,
                    acc.push(value - 1),
                )
            }
        }),
{
    let max = (size - filled + 1) as nat;
    bits::lemma_high_bit_unique(max, (w - 1) as nat);
    lemma_pow2_unfold(w);
    assert(fse_decode::prob_width(max) == w);
    if let Ok(u) = bitreader::forward_read(src, idx, w) {
        let part = bits::byte_bits(src).subrange(idx as int, idx as int + w);
        bits::lemma_val_bound(part);
        fse_decode::lemma_prob_field(max, u);
        let f = fse_decode::prob_field(max, u);
        lemma_pow2_pos((w - 1) as nat);
        lemma_mod_bound(u as int, pow2((w - 1) as nat) as int);
        assert(field(size - filled, w, u as int) == (f.value as int, f.used as int));
    }
}

/// A description ends where the cells are filled.
pub proof fn lemma_probabilities_end(src: Seq<u8>, idx: nat, size: nat, acc: Seq<int>)
    ensures
        fse_decode::read_probs(src, idx, size, size, acc) == Ok::<(Seq<int>, nat), DecodeError>(
            (acc, idx),
        ),
{
}

/// A repeat flag has two bits and says how many more probabilities are 0; after the flag 3
/// comes another.
pub proof fn lemma_repeat_flag(src: Seq<u8>, idx: nat, acc: Seq<int>)
    requires
        idx + 2 <= 8 * src.len(),
    ensures
        ({
            let flag = bit_laws::bit_at(src, idx as int) + 2 * bit_laws::bit_at(
                src,
                idx as int + 1,
            );
            fse_decode::read_zero_runs(src, idx, acc) == if flag == 3 {
                fse_decode::read_zero_runs(src, idx + 2, acc + seq![0int, 0, 0])
            } else {
                Ok(
                    (
                        if flag == 0 {
                            acc
                        } else if flag == 1 {
                            acc + seq![0int]
                        } else {
                            acc + seq![0int, 0]
                        },
                        idx + 2,
                    ),
                )
            }
        }),
{
    bit_laws::lemma_forward(src, idx, 2, 0);
    bit_laws::lemma_forward(src, idx, 2, 1);
    lemma2_to64();
    let v = bitreader::forward_read(src, idx, 2)->Ok_0;
    assert(v / 1 % 2 == bit_laws::digit(v, 0));
    assert(v / 2 % 2 == bit_laws::digit(v, 1));
    assert(v < 4);
    let zeros = acc + Seq::new(v, |i: int| 0int);
    if v == 0 {
        assert(zeros =~= acc);
    } else if v == 1 {
        assert(zeros =~= acc + seq![0int]);
    } else if v == 2 {
        assert(zeros =~= acc + seq![0int, 0]);
    } else {
        assert(zeros =~= acc + seq![0int, 0, 0]);
    }
}

proof fn lemma_sums_of_prefix(a: Seq<int>, b: Seq<int>, n: int)
    requires
        n <= a.len(),
        n <= b.len(),
        forall|i: int| 0 <= i < n ==> #[trigger] a[i] == b[i],
    ensures
        positives(a, n) == positives(b, n),
        lows(a, n) == lows(b, n),
    decreases n,
{
    if n > 0 {
        lemma_sums_of_prefix(a, b, n - 1);
        assert(a[n - 1] == b[n - 1]);
    }
}

/// The cells of all symbols.
spec fn filled_by(probs: Seq<int>) -> int {
    positives(probs, probs.len() as int) + lows(probs, probs.len() as int)
}

spec fn are_probabilities(probs: Seq<int>) -> bool {
    forall|i: int| 0 <= i < probs.len() ==> #[trigger] probs[i] >= -1
}

proof fn lemma_one_more(acc: Seq<int>, x: int)
    requires
        are_probabilities(acc),
        x >= -1,
    ensures
        are_probabilities(acc.push(x)),
        filled_by(acc.push(x)) == filled_by(acc) + (if x == -1 {
            1
        } else {
            x
        }),
{
    lemma_sums_of_prefix(acc, acc.push(x), acc.len() as int);
}

proof fn lemma_zeros_add_nothing(acc: Seq<int>, n: nat)
    requires
        are_probabilities(acc),
    ensures
        are_probabilities(acc + Seq::new(n, |i: int| 0int)),
        filled_by(acc + Seq::new(n, |i: int| 0int)) == filled_by(acc),
    decreases n,
{
    let all = acc + Seq::new(n, |i: int| 0int);
    if n == 0 {
        assert(all =~= acc);
    } else {
        let fewer = acc + Seq::new((n - 1) as nat, |i: int| 0int);
        lemma_zeros_add_nothing(acc, (n - 1) as nat);
        lemma_one_more(fewer, 0);
        assert(all =~= fewer.push(0));
    }
}

proof fn lemma_runs_add_nothing(src: Seq<u8>, idx: nat, acc: Seq<int>)
    requires
        are_probabilities(acc),
    ensures
        fse_decode::read_zero_runs(src, idx, acc) matches Ok((more, _)) ==> are_probabilities(more)
            && filled_by(more) == filled_by(acc),
    decreases 8 * src.len() - idx,
{
    if let Ok(n) = bitreader::forward_read(src, idx, 2) {
        lemma_zeros_add_nothing(acc, n);
        if n == 3 {
            lemma_runs_add_nothing(src, idx + 2, acc + Seq::new(n, |i: int| 0int));
        }
    }
}

proof fn lemma_cells_filled(src: Seq<u8>, idx: nat, size: nat, filled: nat, acc: Seq<int>)
    requires
        filled <= size,
        filled == filled_by(acc),
        are_probabilities(acc),
    ensures
        fse_decode::read_probs(src, idx, size, filled, acc) matches Ok((probs, _))
            ==> are_probabilities(probs) && filled_by(probs) == size,
    decreases 8 * src.len() - idx,
{
    if filled < size {
        let max = (size - filled + 1) as nat;
        let w = fse_decode::prob_width(max);
        if let Ok(u) = bitreader::forward_read(src, idx, w) {
            bits::lemma_val_bound(
                bits::byte_bits(src).subrange(idx as int, idx as int + w),
            );
            fse_decode::lemma_prob_field(max, u);
            let f = fse_decode::prob_field(max, u);
            let prob = f.value - 1;
            lemma_one_more(acc, prob);
            if prob != 0 {
                lemma_cells_filled(
                    src,
                    idx + f.used,
                    size,
                    filled + fse_table::cells(prob),
                    acc.push(prob),
                );
            } else {
                fse_decode::lemma_zero_runs_advance(src, idx + f.used, acc.push(prob));
                lemma_runs_add_nothing(src, idx + f.used, acc.push(prob));
                if let Ok((more, idx2)) = fse_decode::read_zero_runs(
                    src,
                    idx + f.used,
                    acc.push(prob),
                ) {
                    lemma_cells_filled(src, idx2, size, filled, more);
                }
            }
        }
    }
}

/// The probabilities of a description share out all the cells.
pub proof fn lemma_description_fills(src: Seq<u8>, max_log: nat, max_symbol: nat)
    requires
        max_log <= 15,
        max_symbol <= 255,
    ensures
        fse_decode::fse_header(src, max_log, max_symbol) matches Ok(h) ==> shares_cells(
            h.probs,
            h.log,
        ),
{
    if let Ok(h) = fse_decode::fse_header(src, max_log, max_symbol) {
        lemma_cells_filled(src, 4, pow2(h.log), 0, Seq::empty());
        lemma_pow2_pos(h.log);
        if h.probs.len() == 0 {
            assert(filled_by(h.probs) == 0);
        }
    }
}

} // verus!
