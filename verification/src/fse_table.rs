//! The state tables of the FSE entropy coder, shared by its two directions.
//!
//! A normalized distribution gives each symbol a number of the `2^log` cells of
//! the table.  A symbol of probability -1 takes one cell at the high end; the
//! others are spread over the rest by a walk of constant step.
use crate::bits;
use vstd::arithmetic::div_mod::*;
use vstd::arithmetic::mul::*;
use vstd::arithmetic::power2::*;
use vstd::prelude::*;
use vstd::set_lib::*;

verus! {

/// The number of cells of a symbol of normalized probability `p`.
pub open spec fn cells(p: int) -> nat {
    if p == -1 {
        1
    } else if p > 0 {
        p as nat
    } else {
        0
    }
}

/// The cells of the symbols below `s`.
pub open spec fn cells_before(probs: Seq<int>, s: nat) -> nat
    decreases s,
{
    if s == 0 {
        0
    } else {
        cells_before(probs, (s - 1) as nat) + cells(probs[s - 1])
    }
}

/// The spread cells of the symbols below `s`: those of positive probability.
pub open spec fn spread_before(probs: Seq<int>, s: nat) -> nat
    decreases s,
{
    if s == 0 {
        0
    } else {
        spread_before(probs, (s - 1) as nat) + (if probs[s - 1] > 0 {
            probs[s - 1] as nat
        } else {
            0
        })
    }
}

/// The number of symbols below `s` of probability -1.
pub open spec fn low_before(probs: Seq<int>, s: nat) -> nat
    decreases s,
{
    if s == 0 {
        0
    } else {
        low_before(probs, (s - 1) as nat) + (if probs[s - 1] == -1 {
            1nat
        } else {
            0
        })
    }
}

/// `probs` is a normalized distribution for a table of `2^log` cells.
pub open spec fn is_distribution(probs: Seq<int>, log: nat) -> bool {
    &&& 4 <= log <= 15
    &&& 0 < probs.len() <= 256
    &&& forall|s: int| 0 <= s < probs.len() ==> #[trigger] probs[s] >= -1
    &&& cells_before(probs, probs.len()) == pow2(log)
}

/// The number of cells that the walk fills.
pub open spec fn spread_cells(probs: Seq<int>) -> nat {
    spread_before(probs, probs.len())
}

pub open spec fn walk_step(log: nat) -> nat {
    (pow2(log) / 2 + pow2(log) / 8 + 3) as nat
}

/// The cell of step `i` of the walk.
pub open spec fn walk(log: nat, i: nat) -> nat {
    (i * walk_step(log)) % pow2(log)
}

/// The number of the first `i` steps of the walk that stop below `m`.
pub open spec fn walk_rank(log: nat, m: nat, i: nat) -> nat
    decreases i,
{
    if i == 0 {
        0
    } else {
        walk_rank(log, m, (i - 1) as nat) + (if walk(log, (i - 1) as nat) < m {
            1nat
        } else {
            0
        })
    }
}

/// An inverse of the odd number `s` modulo `2^k`.
pub open spec fn odd_inverse(s: nat, k: nat) -> nat
    decreases k,
{
    if k <= 1 {
        1
    } else {
        let x = odd_inverse(s, (k - 1) as nat);
        if (s * x) % pow2(k) == 1 {
            x
        } else {
            x + pow2((k - 1) as nat)
        }
    }
}

/// The step of the walk that stops at cell `p`.
pub open spec fn walk_index(log: nat, p: nat) -> nat {
    (p * odd_inverse(walk_step(log), log)) % pow2(log)
}

/// The symbol of the `k`-th spread cell, in the order of the walk.
pub open spec fn spread_symbol(probs: Seq<int>, k: int) -> int {
    choose|s: int|
        0 <= s < probs.len() && #[trigger] spread_before(probs, s as nat) <= k < spread_before(
            probs,
            (s + 1) as nat,
        )
}

/// The `j`-th symbol of probability -1.
pub open spec fn low_symbol(probs: Seq<int>, j: int) -> int {
    choose|s: int|
        0 <= s < probs.len() && probs[s] == -1 && #[trigger] low_before(probs, s as nat) == j
}

/// The symbol of each cell of the table.
pub open spec fn spread(probs: Seq<int>, log: nat) -> Seq<int> {
    Seq::new(
        pow2(log),
        |p: int|
            if p >= spread_cells(probs) {
                low_symbol(probs, pow2(log) - 1 - p)
            } else {
                spread_symbol(
                    probs,
                    walk_rank(log, spread_cells(probs), walk_index(log, p as nat)) as int,
                )
            },
    )
}

/// The number of the first `n` entries of `t` that are `s`.
pub open spec fn occurrences(t: Seq<int>, s: int, n: nat) -> nat
    decreases n,
{
    if n == 0 {
        0
    } else {
        occurrences(t, s, (n - 1) as nat) + (if t[n - 1] == s {
            1nat
        } else {
            0
        })
    }
}

// ---------------------------------------------------------------------------
// Sums
// ---------------------------------------------------------------------------

pub proof fn lemma_before_split(probs: Seq<int>, s: nat)
    ensures
        cells_before(probs, s) == spread_before(probs, s) + low_before(probs, s),
    decreases s,
{
    if s > 0 {
        lemma_before_split(probs, (s - 1) as nat);
    }
}

pub proof fn lemma_before_monotone(probs: Seq<int>, a: nat, b: nat)
    requires
        a <= b,
    ensures
        cells_before(probs, a) <= cells_before(probs, b),
        spread_before(probs, a) <= spread_before(probs, b),
        low_before(probs, a) <= low_before(probs, b),
    decreases b,
{
    if a < b {
        lemma_before_monotone(probs, a, (b - 1) as nat);
    }
}

/// Cells, spread and low counts only look at the symbols below `s`.
pub proof fn lemma_before_prefix(p: Seq<int>, q: Seq<int>, s: nat)
    requires
        s <= p.len(),
        s <= q.len(),
        forall|i: int| 0 <= i < s ==> p[i] == q[i],
    ensures
        cells_before(p, s) == cells_before(q, s),
        spread_before(p, s) == spread_before(q, s),
        low_before(p, s) == low_before(q, s),
    decreases s,
{
    if s > 0 {
        lemma_before_prefix(p, q, (s - 1) as nat);
    }
}

pub proof fn lemma_spread_symbol(probs: Seq<int>, s: int, k: int)
    requires
        0 <= s < probs.len(),
        spread_before(probs, s as nat) <= k < spread_before(probs, (s + 1) as nat),
    ensures
        spread_symbol(probs, k) == s,
{
    let t = spread_symbol(probs, k);
    assert(0 <= t < probs.len() && spread_before(probs, t as nat) <= k < spread_before(
        probs,
        (t + 1) as nat,
    ));
    if t < s {
        lemma_before_monotone(probs, (t + 1) as nat, s as nat);
    } else if s < t {
        lemma_before_monotone(probs, (s + 1) as nat, t as nat);
    }
}

pub proof fn lemma_low_symbol(probs: Seq<int>, s: int)
    requires
        0 <= s < probs.len(),
        probs[s] == -1,
    ensures
        low_symbol(probs, low_before(probs, s as nat) as int) == s,
{
    let j = low_before(probs, s as nat) as int;
    let t = low_symbol(probs, j);
    assert(0 <= t < probs.len() && probs[t] == -1 && low_before(probs, t as nat) == j);
    if t < s {
        lemma_before_monotone(probs, (t + 1) as nat, s as nat);
    } else if s < t {
        lemma_before_monotone(probs, (s + 1) as nat, t as nat);
    }
}

/// Every rank below the total belongs to a symbol.
pub proof fn lemma_spread_symbol_exists(probs: Seq<int>, k: int, n: nat)
    requires
        n <= probs.len(),
        0 <= k < spread_before(probs, n),
    ensures
        exists|s: int|
            0 <= s < n && #[trigger] spread_before(probs, s as nat) <= k < spread_before(
                probs,
                (s + 1) as nat,
            ),
    decreases n,
{
    if k < spread_before(probs, (n - 1) as nat) {
        lemma_spread_symbol_exists(probs, k, (n - 1) as nat);
        let s = choose|s: int|
            0 <= s < n - 1 && #[trigger] spread_before(probs, s as nat) <= k < spread_before(
                probs,
                (s + 1) as nat,
            );
        assert(0 <= s < n && spread_before(probs, s as nat) <= k);
    } else {
        let s = n - 1;
        assert(spread_before(probs, s as nat) <= k < spread_before(probs, (s + 1) as nat));
    }
}

pub proof fn lemma_low_symbol_exists(probs: Seq<int>, j: int, n: nat)
    requires
        n <= probs.len(),
        0 <= j < low_before(probs, n),
    ensures
        exists|s: int|
            0 <= s < n && probs[s] == -1 && #[trigger] low_before(probs, s as nat) == j,
    decreases n,
{
    if j < low_before(probs, (n - 1) as nat) {
        lemma_low_symbol_exists(probs, j, (n - 1) as nat);
        let s = choose|s: int|
            0 <= s < n - 1 && probs[s] == -1 && #[trigger] low_before(probs, s as nat) == j;
        assert(0 <= s < n && low_before(probs, s as nat) == j);
    } else {
        let s = n - 1;
        assert(low_before(probs, s as nat) == j);
    }
}

// ---------------------------------------------------------------------------
// The walk
// ---------------------------------------------------------------------------

proof fn lemma_step_odd(log: nat)
    requires
        4 <= log,
    ensures
        walk_step(log) % 2 == 1,
{
    lemma2_to64();
    lemma_pow2_adds(4, (log - 4) as nat);
    let q = pow2((log - 4) as nat);
    assert(pow2(log) == 16 * q);
    assert(pow2(log) / 2 == 8 * q);
    assert(pow2(log) / 8 == 2 * q);
}

proof fn lemma_odd_inverse(s: nat, k: nat)
    requires
        s % 2 == 1,
        k >= 1,
    ensures
        (s * odd_inverse(s, k)) % pow2(k) == 1,
    decreases k,
{
    lemma2_to64();
    if k == 1 {
        assert(s * 1 == s);
    } else {
        lemma_odd_inverse(s, (k - 1) as nat);
        let x = odd_inverse(s, (k - 1) as nat);
        let m = pow2((k - 1) as nat);
        lemma_pow2_unfold(k);
        lemma_pow2_pos((k - 1) as nat);
        let y = s * x;
        let q = y / m;
        lemma_fundamental_div_mod(y as int, m as int);
        assert(y == m * q + 1);
        if q % 2 == 0 {
            let r = q / 2;
            assert(m * q == r * (2 * m)) by (nonlinear_arith)
                requires
                    q == 2 * r,
            ;
            if m == 1 {
                assert(false) by {
                    assert(k - 1 >= 1);
                    lemma_pow2_unfold((k - 1) as nat);
                }
            }
            lemma_fundamental_div_mod_converse(y as int, (2 * m) as int, r as int, 1);
        } else {
            let r = (q + s) / 2;
            assert(s * (x + m) == y + s * m) by (nonlinear_arith)
                requires
                    y == s * x,
            ;
            assert(m * q + s * m == r * (2 * m)) by (nonlinear_arith)
                requires
                    q + s == 2 * r,
            ;
            lemma_pow2_unfold((k - 1) as nat);
            lemma_fundamental_div_mod_converse(
                (s * (x + m)) as int,
                (2 * m) as int,
                r as int,
                1,
            );
            if (s * x) % pow2(k) == 1 {
            }
        }
    }
}

/// Steps and cells correspond one to one.
pub proof fn lemma_walk_inverse(log: nat, i: nat)
    requires
        4 <= log,
        i < pow2(log),
    ensures
        walk(log, i) < pow2(log),
        walk_index(log, walk(log, i)) == i,
{
    let t = pow2(log) as int;
    let s = walk_step(log) as int;
    let v = odd_inverse(walk_step(log), log) as int;
    lemma_pow2_pos(log);
    lemma_step_odd(log);
    lemma_odd_inverse(walk_step(log), log);
    lemma_mod_bound(i * s, t);
    lemma_mul_mod_noop_left(i * s, v, t);
    lemma_mul_is_associative(i as int, s, v);
    lemma_mul_mod_noop_right(i as int, s * v, t);
    assert(i * 1 == i);
    lemma_small_mod(i, pow2(log));
}

pub proof fn lemma_walk_index(log: nat, p: nat)
    requires
        4 <= log,
        p < pow2(log),
    ensures
        walk_index(log, p) < pow2(log),
        walk(log, walk_index(log, p)) == p,
{
    let t = pow2(log) as int;
    let s = walk_step(log) as int;
    let v = odd_inverse(walk_step(log), log) as int;
    lemma_pow2_pos(log);
    lemma_step_odd(log);
    lemma_odd_inverse(walk_step(log), log);
    lemma_mod_bound(p * v, t);
    lemma_mul_mod_noop_left(p * v, s, t);
    lemma_mul_is_associative(p as int, v, s);
    lemma_mul_is_commutative(v, s);
    lemma_mul_mod_noop_right(p as int, s * v, t);
    assert(p * 1 == p);
    lemma_small_mod(p, pow2(log));
}

/// One step further along the walk.
pub proof fn lemma_walk_next(log: nat, i: nat)
    requires
        4 <= log,
    ensures
        walk(log, i + 1) == (walk(log, i) + walk_step(log)) % pow2(log),
        walk(log, 0) == 0,
        walk(log, pow2(log)) == 0,
{
    let t = pow2(log) as int;
    let s = walk_step(log) as int;
    lemma_pow2_pos(log);
    assert((i + 1) * s == i * s + s) by (nonlinear_arith);
    lemma_add_mod_noop(i * s, s, t);
    lemma_add_mod_noop((i * s) % t, s, t);
    lemma_mod_twice(i * s, t);
    assert(0 * s == 0);
    lemma_small_mod(0, pow2(log));
    lemma_mod_multiples_basic(s, t);
    lemma_mul_is_commutative(s, t);
}

proof fn lemma_walk_rank_set(log: nat, m: nat, i: nat)
    ensures
        Set::new(|j: int| 0 <= j < i && walk(log, j as nat) < m).finite(),
        Set::new(|j: int| 0 <= j < i && walk(log, j as nat) < m).len() == walk_rank(log, m, i),
    decreases i,
{
    let now = Set::new(|j: int| 0 <= j < i && walk(log, j as nat) < m);
    if i == 0 {
        assert(now =~= Set::<int>::empty());
    } else {
        lemma_walk_rank_set(log, m, (i - 1) as nat);
        let before = Set::new(|j: int| 0 <= j < i - 1 && walk(log, j as nat) < m);
        if walk(log, (i - 1) as nat) < m {
            assert(now =~= before.insert(i - 1));
        } else {
            assert(now =~= before);
        }
    }
}

/// Exactly `m` steps of a full walk stop below `m`.
pub proof fn lemma_walk_rank_full(log: nat, m: nat)
    requires
        4 <= log,
        m <= pow2(log),
    ensures
        walk_rank(log, m, pow2(log)) == m,
{
    let t = pow2(log);
    let a = Set::new(|j: int| 0 <= j < t && walk(log, j as nat) < m);
    lemma_walk_rank_set(log, m, t);
    let f = |j: int| walk(log, j as nat) as int;
    let b = set_int_range(0, m as int);
    lemma_int_range(0, m as int);
    assert(vstd::relations::injective_on(f, a)) by {
        assert forall|x: int, y: int| a.contains(x) && a.contains(y) && #[trigger] f(x)
            == #[trigger] f(y) implies x == y by {
            lemma_walk_inverse(log, x as nat);
            lemma_walk_inverse(log, y as nat);
        }
    }
    assert(a.map(f) =~= b) by {
        assert forall|p: int| b.contains(p) implies a.map(f).contains(p) by {
            lemma_walk_index(log, p as nat);
            let x = walk_index(log, p as nat) as int;
            assert(a.contains(x));
            assert(f(x) == p);
        }
    }
    lemma_map_size(a, b, f);
}

pub proof fn lemma_walk_rank_monotone(log: nat, m: nat, i: nat, j: nat)
    requires
        i <= j,
    ensures
        walk_rank(log, m, i) <= walk_rank(log, m, j),
        i < j && walk(log, i) < m ==> walk_rank(log, m, i) < walk_rank(log, m, j),
    decreases j,
{
    if i < j {
        lemma_walk_rank_monotone(log, m, i, (j - 1) as nat);
        if i == j - 1 {
        }
    }
}

// ---------------------------------------------------------------------------
// The table
// ---------------------------------------------------------------------------

/// Facts about one cell of the table.
pub proof fn lemma_spread_cell(probs: Seq<int>, log: nat, p: int)
    requires
        is_distribution(probs, log),
        0 <= p < pow2(log),
    ensures
        spread(probs, log).len() == pow2(log),
        0 <= spread(probs, log)[p] < probs.len(),
        spread_cells(probs) <= pow2(log),
        p >= spread_cells(probs) ==> probs[spread(probs, log)[p]] == -1 && low_before(
            probs,
            spread(probs, log)[p] as nat,
        ) == pow2(log) - 1 - p,
        p < spread_cells(probs) ==> probs[spread(probs, log)[p]] > 0 && ({
            let k = walk_rank(log, spread_cells(probs), walk_index(log, p as nat));
            let s = spread(probs, log)[p];
            spread_before(probs, s as nat) <= k < spread_before(probs, (s + 1) as nat)
        }),
{
    let n = probs.len();
    let m = spread_cells(probs);
    lemma_before_split(probs, n);
    if p >= m {
        let j = pow2(log) - 1 - p;
        lemma_low_symbol_exists(probs, j, n);
        let s = choose|s: int|
            0 <= s < n && probs[s] == -1 && #[trigger] low_before(probs, s as nat) == j;
        lemma_low_symbol(probs, s);
    } else {
        lemma_walk_index(log, p as nat);
        let i = walk_index(log, p as nat);
        lemma_walk_rank_full(log, m);
        lemma_walk_rank_monotone(log, m, i, pow2(log));
        let k = walk_rank(log, m, i) as int;
        lemma_spread_symbol_exists(probs, k, n);
        let s = choose|s: int|
            0 <= s < n && #[trigger] spread_before(probs, s as nat) <= k < spread_before(
                probs,
                (s + 1) as nat,
            );
        lemma_spread_symbol(probs, s, k);
    }
}

proof fn lemma_occurrences_set(t: Seq<int>, s: int, n: nat)
    requires
        n <= t.len(),
    ensures
        Set::new(|j: int| 0 <= j < n && t[j] == s).finite(),
        Set::new(|j: int| 0 <= j < n && t[j] == s).len() == occurrences(t, s, n),
    decreases n,
{
    let now = Set::new(|j: int| 0 <= j < n && t[j] == s);
    if n == 0 {
        assert(now =~= Set::<int>::empty());
    } else {
        lemma_occurrences_set(t, s, (n - 1) as nat);
        let before = Set::new(|j: int| 0 <= j < n - 1 && t[j] == s);
        if t[n - 1] == s {
            assert(now =~= before.insert(n - 1));
        } else {
            assert(now =~= before);
        }
    }
}

pub proof fn lemma_occurrences_monotone(t: Seq<int>, s: int, a: nat, b: nat)
    requires
        a <= b <= t.len(),
    ensures
        occurrences(t, s, a) <= occurrences(t, s, b),
        a < b && t[a as int] == s ==> occurrences(t, s, a) < occurrences(t, s, b),
    decreases b,
{
    if a < b {
        lemma_occurrences_monotone(t, s, a, (b - 1) as nat);
    }
}

/// Every occurrence number below the total is taken by an entry.
pub proof fn lemma_occurrence_exists(t: Seq<int>, s: int, n: nat, j: nat) -> (u: int)
    requires
        n <= t.len(),
        j < occurrences(t, s, n),
    ensures
        0 <= u < n,
        t[u] == s,
        occurrences(t, s, u as nat) == j,
    decreases n,
{
    if j < occurrences(t, s, (n - 1) as nat) {
        lemma_occurrence_exists(t, s, (n - 1) as nat, j)
    } else {
        n - 1
    }
}

/// Each symbol has as many cells of the table as the distribution gives it.
pub proof fn lemma_spread_counts(probs: Seq<int>, log: nat, s: int)
    requires
        is_distribution(probs, log),
        0 <= s < probs.len(),
    ensures
        occurrences(spread(probs, log), s, pow2(log)) == cells(probs[s]),
{
    let t = spread(probs, log);
    let n = pow2(log);
    let m = spread_cells(probs);
    lemma_before_split(probs, probs.len());
    lemma_occurrences_set(t, s, n);
    let a = Set::new(|j: int| 0 <= j < n && t[j] == s);
    if probs[s] == -1 {
        let p = n - 1 - low_before(probs, s as nat);
        lemma_before_monotone(probs, (s + 1) as nat, probs.len());
        lemma_low_symbol(probs, s);
        assert(a =~= set_int_range(p, p + 1)) by {
            assert forall|j: int| a.contains(j) implies j == p by {
                lemma_spread_cell(probs, log, j);
            }
            assert(p >= m);
            assert(t[p] == s);
        }
        lemma_int_range(p, p + 1);
    } else if probs[s] == 0 {
        assert(a =~= Set::<int>::empty()) by {
            assert forall|j: int| !a.contains(j) by {
                if a.contains(j) {
                    lemma_spread_cell(probs, log, j);
                }
            }
        }
    } else {
        let lo = spread_before(probs, s as nat) as int;
        let hi = spread_before(probs, (s + 1) as nat) as int;
        let f = |p: int| walk_rank(log, m, walk_index(log, p as nat)) as int;
        let b = set_int_range(lo, hi);
        lemma_int_range(lo, hi);
        lemma_before_monotone(probs, (s + 1) as nat, probs.len());
        assert(vstd::relations::injective_on(f, a)) by {
            assert forall|x: int, y: int| a.contains(x) && a.contains(y) && #[trigger] f(x)
                == #[trigger] f(y) implies x == y by {
                lemma_spread_cell(probs, log, x);
                lemma_spread_cell(probs, log, y);
                lemma_walk_index(log, x as nat);
                lemma_walk_index(log, y as nat);
                let ix = walk_index(log, x as nat);
                let iy = walk_index(log, y as nat);
                if ix < iy {
                    lemma_walk_rank_monotone(log, m, ix, iy);
                } else if iy < ix {
                    lemma_walk_rank_monotone(log, m, iy, ix);
                }
            }
        }
        assert(a.map(f) =~= b) by {
            assert forall|k: int| a.map(f).contains(k) implies b.contains(k) by {
                let x = choose|x: int| a.contains(x) && f(x) == k;
                lemma_spread_cell(probs, log, x);
            }
            assert forall|k: int| b.contains(k) implies a.map(f).contains(k) by {
                lemma_walk_rank_full(log, m);
                let i = lemma_rank_step(log, m, pow2(log), k as nat);
                let p = walk(log, i) as int;
                lemma_walk_inverse(log, i);
                lemma_spread_symbol(probs, s, k);
                assert(f(p) == k);
                assert(t[p] == s);
                assert(a.contains(p));
            }
        }
        lemma_map_size(a, b, f);
    }
}

/// Every rank below the total is taken by a step that stops below `m`.
proof fn lemma_rank_step(log: nat, m: nat, n: nat, k: nat) -> (i: nat)
    requires
        k < walk_rank(log, m, n),
    ensures
        i < n,
        walk(log, i) < m,
        walk_rank(log, m, i) == k,
    decreases n,
{
    if k < walk_rank(log, m, (n - 1) as nat) {
        lemma_rank_step(log, m, (n - 1) as nat, k)
    } else {
        (n - 1) as nat
    }
}

// ---------------------------------------------------------------------------
// Transitions
// ---------------------------------------------------------------------------

/// The smallest exponent `e` with `n <= 2^e`.
pub open spec fn ceil_log2(n: nat) -> nat {
    if n <= 1 {
        0
    } else {
        bits::high_bit((n - 1) as nat) + 1
    }
}

pub proof fn lemma_ceil_log2(n: nat)
    requires
        n >= 1,
    ensures
        n <= pow2(ceil_log2(n)) < 2 * n,
{
    lemma2_to64();
    if n > 1 {
        bits::lemma_high_bit((n - 1) as nat);
        lemma_pow2_unfold(ceil_log2(n));
    }
}

pub proof fn lemma_ceil_log2_bound(n: nat, log: nat)
    requires
        1 <= n <= pow2(log),
    ensures
        ceil_log2(n) <= log,
{
    lemma_ceil_log2(n);
    if ceil_log2(n) > log {
        bits::lemma_pow2_monotone(log + 1, ceil_log2(n));
        lemma_pow2_unfold(log + 1);
    }
}

/// Where the decoder goes from the `k`-th of the `n` cells of a symbol: to
/// `base + v` for the number `v` in the next `bits` bits.
pub struct Transition {
    pub base: nat,
    pub bits: nat,
}

/// The `n` cells of a symbol divide the `2^log` states among themselves: in units
/// of the next power of two, the first cells get two units each, at the high end,
/// and the others one.
pub open spec fn transition(log: nat, n: nat, k: nat) -> Transition {
    let e = ceil_log2(n);
    let double = (pow2(e) - n) as nat;
    let width = pow2((log - e) as nat);
    if k < double {
        Transition {
            base: (n - double + 2 * k) as nat * width,
            bits: (log - e + 1) as nat,
        }
    } else {
        Transition { base: (k - double) as nat * width, bits: (log - e) as nat }
    }
}

/// A transition stays inside the table.
pub proof fn lemma_transition_bound(log: nat, n: nat, k: nat)
    requires
        1 <= n <= pow2(log),
        k < n,
    ensures
        transition(log, n, k).base + pow2(transition(log, n, k).bits) <= pow2(log),
        transition(log, n, k).bits <= log,
        n > 1 || log == 0 || transition(log, n, k).bits == log,
        n >= 1 ==> ceil_log2(n) <= log,
{
    let e = ceil_log2(n);
    lemma_ceil_log2(n);
    lemma_ceil_log2_bound(n, log);
    let double = (pow2(e) - n) as nat;
    let w = pow2((log - e) as nat);
    lemma_pow2_pos((log - e) as nat);
    lemma_pow2_adds(e, (log - e) as nat);
    lemma2_to64();
    if k < double {
        lemma_pow2_unfold((log - e + 1) as nat);
        assert((n - double + 2 * k) * w + 2 * w <= pow2(e) * w) by (nonlinear_arith)
            requires
                n - double + 2 * k + 2 <= pow2(e),
                w > 0,
        ;
        if e == 0 {
            assert(false);
        }
    } else {
        assert((k - double) * w + w <= pow2(e) * w) by (nonlinear_arith)
            requires
                k - double + 1 <= pow2(e),
                w > 0,
        ;
    }
}

/// The number of bits that the encoder writes to leave state `2^log + x` for a
/// symbol of `n` cells.
pub open spec fn enc_bits(log: nat, n: nat, x: nat) -> nat {
    let e = ceil_log2(n);
    if pow2(log) + x >= 2 * n * pow2((log - e) as nat) {
        (log - e + 1) as nat
    } else {
        (log - e) as nat
    }
}

/// The cell of the symbol that the encoder goes to from state `2^log + x`.
pub open spec fn enc_cell(log: nat, n: nat, x: nat) -> nat {
    ((pow2(log) + x) / pow2(enc_bits(log, n, x)) - n) as nat
}

/// The encoder's step undoes the decoder's: from the cell that the encoder goes
/// to, the decoder reads the bits that the encoder wrote and returns to `x`.
pub proof fn lemma_fse_step(log: nat, n: nat, x: nat)
    requires
        1 <= n <= pow2(log),
        x < pow2(log),
    ensures
        enc_cell(log, n, x) < n,
        (pow2(log) + x) / pow2(enc_bits(log, n, x)) >= n,
        ({
            let t = transition(log, n, enc_cell(log, n, x));
            &&& t.bits == enc_bits(log, n, x)
            &&& t.base + x % pow2(t.bits) == x
        }),
        enc_bits(log, n, x) <= log,
{
    let e = ceil_log2(n);
    lemma_ceil_log2(n);
    lemma_ceil_log2_bound(n, log);
    let pe = pow2(e);
    let double = (pe - n) as nat;
    let w = pow2((log - e) as nat);
    let tt = pow2(log);
    lemma_pow2_pos((log - e) as nat);
    lemma_pow2_adds(e, (log - e) as nat);
    assert(tt == pe * w);
    let y = tt + x;
    lemma2_to64();
    if y >= 2 * n * w {
        let b = (log - e + 1) as nat;
        lemma_pow2_unfold(b);
        let d = 2 * w;
        assert(pow2(b) == d);
        let q = y / d;
        let r = y % d;
        lemma_fundamental_div_mod(y as int, d as int);
        assert(y == d * q + r);
        // n <= q < pe
        assert(2 * n * w == n * d) by (nonlinear_arith)
            requires
                d == 2 * w,
        ;
        assert(pe * d == 2 * tt) by (nonlinear_arith)
            requires
                d == 2 * w,
                tt == pe * w,
        ;
        assert(q >= n) by (nonlinear_arith)
            requires
                y == d * q + r,
                y >= n * d,
                r < d,
                d > 0,
        ;
        assert(q < pe) by (nonlinear_arith)
            requires
                y == d * q + r,
                y < pe * d,
                r >= 0,
                d > 0,
        ;
        let k = (q - n) as nat;
        assert(enc_cell(log, n, x) == k);
        assert(k < double);
        if n == 1 {
            assert(false) by {
                assert(e == 0);
                assert(pe == 1);
            }
        }
        // x % d == r, since tt is a multiple of d
        lemma_pow2_unfold(e);
        let h = pow2((e - 1) as nat);
        assert(tt == d * h) by (nonlinear_arith)
            requires
                tt == pe * w,
                pe == 2 * h,
                d == 2 * w,
        ;
        assert(x == (q - h) * d + r) by (nonlinear_arith)
            requires
                y == tt + x,
                y == d * q + r,
                tt == d * h,
        ;
        lemma_fundamental_div_mod_converse(x as int, d as int, q - h, r as int);
        assert((n - double + 2 * k) * w == (q - h) * d) by (nonlinear_arith)
            requires
                double == pe - n,
                k == q - n,
                pe == 2 * h,
                d == 2 * w,
        ;
    } else {
        let q = y / w;
        let r = y % w;
        lemma_fundamental_div_mod(y as int, w as int);
        assert(q >= pe) by (nonlinear_arith)
            requires
                y == w * q + r,
                y >= pe * w,
                r < w,
                w > 0,
        ;
        assert(q < 2 * n) by (nonlinear_arith)
            requires
                y == w * q + r,
                y < 2 * n * w,
                r >= 0,
                w > 0,
        ;
        let k = (q - n) as nat;
        assert(enc_cell(log, n, x) == k);
        assert(k >= double && k < n);
        assert(x == (q - pe) * w + r) by (nonlinear_arith)
            requires
                y == tt + x,
                y == w * q + r,
                tt == pe * w,
        ;
        lemma_fundamental_div_mod_converse(x as int, w as int, q - pe, r as int);
        assert((k - double) == q - pe);
    }
}

} // verus!
