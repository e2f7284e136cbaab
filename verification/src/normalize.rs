//! Symbol counts and their normalization to FSE distributions.
use crate::bits;
use crate::bits::pow2_u32;
use crate::fse_table;
use vstd::arithmetic::div_mod::*;
use vstd::arithmetic::mul::*;
use vstd::arithmetic::power2::*;
use vstd::prelude::*;

verus! {

/// How often `c` occurs among the first `n` of `codes`.
pub open spec fn freq(codes: Seq<u8>, n: nat, c: int) -> nat
    decreases n,
{
    if n == 0 {
        0
    } else {
        freq(codes, (n - 1) as nat, c) + (if codes[n - 1] == c {
            1nat
        } else {
            0
        })
    }
}

/// The sum of the first `n` counts.
pub open spec fn count_sum(counts: Seq<u32>, n: nat) -> nat
    decreases n,
{
    if n == 0 {
        0
    } else {
        count_sum(counts, (n - 1) as nat) + counts[n - 1] as nat
    }
}

/// How many of the first `n` counts are not zero.
pub open spec fn used_count(counts: Seq<u32>, n: nat) -> nat
    decreases n,
{
    if n == 0 {
        0
    } else {
        used_count(counts, (n - 1) as nat) + (if counts[n - 1] > 0 {
            1nat
        } else {
            0
        })
    }
}

/// The first of the largest among the first `n` counts.
pub open spec fn largest_of(counts: Seq<u32>, n: nat) -> nat
    decreases n,
{
    if n <= 1 {
        0
    } else {
        let best = largest_of(counts, (n - 1) as nat);
        if counts[n - 1] > counts[best as int] {
            (n - 1) as nat
        } else {
            best
        }
    }
}

/// The share of a symbol in `size` cells: rounded down, but -1 where nothing would be
/// left.
pub open spec fn share(count: nat, size: nat, total: nat) -> int {
    if count == 0 {
        0
    } else if count * size / total == 0 {
        -1
    } else {
        (count * size / total) as int
    }
}

/// Takes `remaining` cells away from the symbols below `s` other than `keep`, the
/// highest first, and leaves each of them one.
pub open spec fn take_back(norm: Seq<int>, keep: int, remaining: int, s: nat) -> Seq<int>
    decreases s,
{
    if s == 0 || remaining <= 0 {
        norm
    } else {
        let i = s - 1;
        if i == keep || norm[i] <= 1 {
            take_back(norm, keep, remaining, i as nat)
        } else {
            let take = if remaining < norm[i] - 1 {
                remaining
            } else {
                norm[i] - 1
            };
            take_back(norm.update(i, norm[i] - take), keep, remaining - take, i as nat)
        }
    }
}

/// Counts normalized to `size` cells: every symbol gets its share, and the most
/// frequent one what is left; where too much was given away, it keeps one cell, and
/// the others give back.
pub open spec fn normalized(counts: Seq<u32>, size: nat) -> Seq<int> {
    let n = counts.len();
    let total = count_sum(counts, n);
    let shares = Seq::new(n, |s: int| share(counts[s] as nat, size, total));
    let largest = largest_of(counts, n) as int;
    let adjusted = shares[largest] + size - fse_table::cells_before(shares, n);
    if total == 0 {
        Seq::new(n, |s: int| 0int)
    } else if adjusted >= 1 {
        shares.update(largest, adjusted)
    } else {
        take_back(shares.update(largest, 1), largest, 1 - adjusted, n)
    }
}

pub proof fn lemma_cells_update(p: Seq<int>, i: int, x: int, n: nat)
    requires
        0 <= i < n <= p.len(),
    ensures
        fse_table::cells_before(p.update(i, x), n) == fse_table::cells_before(p, n)
            - fse_table::cells(p[i]) + fse_table::cells(x),
    decreases n,
{
    if i == n - 1 {
        fse_table::lemma_before_prefix(p.update(i, x), p, (n - 1) as nat);
    } else {
        lemma_cells_update(p, i, x, (n - 1) as nat);
    }
}

/// The total is at most the number of symbols times the largest count.
proof fn lemma_largest(counts: Seq<u32>, n: nat)
    requires
        1 <= n <= counts.len(),
    ensures
        largest_of(counts, n) < n,
        forall|i: int| 0 <= i < n ==> #[trigger] counts[i] <= counts[largest_of(counts, n) as int],
        count_sum(counts, n) <= used_count(counts, n) * counts[largest_of(counts, n) as int],
        used_count(counts, n) <= n,
    decreases n,
{
    if n == 1 {
        assert(count_sum(counts, 0) == 0);
        assert(used_count(counts, 0) == 0);
        assert(1 * counts[0] == counts[0]);
        assert(used_count(counts, 1) * counts[0] == counts[0]) by (nonlinear_arith)
            requires
                used_count(counts, 1) == 1 || (used_count(counts, 1) == 0 && counts[0] == 0),
        ;
    } else {
        lemma_largest(counts, (n - 1) as nat);
        let u = used_count(counts, (n - 1) as nat);
        let old_max = counts[largest_of(counts, (n - 1) as nat) as int];
        let max = counts[largest_of(counts, n) as int];
        let c = counts[n - 1];
        assert(u * old_max <= u * max) by (nonlinear_arith)
            requires
                old_max <= max,
        ;
        assert((u + 1) * max == u * max + max) by (nonlinear_arith);
        if c > 0 {
            assert(used_count(counts, n) == u + 1);
        } else {
            assert(used_count(counts, n) == u);
        }
    }
}

/// Where every symbol that occurs has one cell, there are as many cells as symbols.
pub proof fn lemma_one_cell_each(norm: Seq<int>, counts: Seq<u32>, n: nat)
    requires
        n <= norm.len(),
        n <= counts.len(),
        forall|i: int| 0 <= i < n ==> #[trigger] norm[i] <= 1 && norm[i] >= -1,
        forall|i: int| 0 <= i < n ==> (#[trigger] norm[i] != 0 <==> counts[i] > 0),
    ensures
        fse_table::cells_before(norm, n) == used_count(counts, n),
    decreases n,
{
    if n > 0 {
        lemma_one_cell_each(norm, counts, (n - 1) as nat);
        assert(norm[n - 1] <= 1);
    }
}

pub open spec fn as_probs(norm: Seq<i16>) -> Seq<int> {
    Seq::new(norm.len(), |i: int| norm[i] as int)
}

proof fn lemma_share_bound(count: nat, size: nat, total: nat)
    requires
        count <= total,
        total > 0,
    ensures
        -1 <= share(count, size, total) <= size,
        share(count, size, total) != 0 <==> count > 0,
        fse_table::cells(share(count, size, total)) <= size || size == 0,
{
    if count > 0 {
        assert(count * size <= total * size) by (nonlinear_arith)
            requires
                count <= total,
        ;
        lemma_div_is_ordered((count * size) as int, (total * size) as int, total as int);
        lemma_mul_is_commutative(total as int, size as int);
        lemma_div_multiples_vanish(size as int, total as int);
    }
}

pub proof fn lemma_count_sum_member(counts: Seq<u32>, n: nat, i: int)
    requires
        0 <= i < n <= counts.len(),
    ensures
        counts[i] <= count_sum(counts, n),
    decreases n,
{
    if i < n - 1 {
        lemma_count_sum_member(counts, (n - 1) as nat, i);
    }
}

/// `norm` gives cells to the symbols that occur, and to no others.
pub open spec fn covers(norm: Seq<int>, counts: Seq<u32>) -> bool {
    &&& norm.len() == counts.len()
    &&& forall|s: int|
        0 <= s < norm.len() ==> #[trigger] norm[s] >= -1 && (norm[s] != 0 <==> counts[s] > 0)
}

/// Enough cells are taken away.
proof fn lemma_take_back(
    norm: Seq<int>,
    counts: Seq<u32>,
    size: nat,
    keep: int,
    remaining: int,
    s: nat,
)
    requires
        covers(norm, counts),
        0 <= keep < norm.len(),
        norm[keep] == 1,
        s <= norm.len(),
        remaining >= 0,
        fse_table::cells_before(norm, norm.len()) == size + remaining,
        used_count(counts, counts.len()) <= size,
        forall|i: int| s <= i < norm.len() && remaining > 0 ==> #[trigger] norm[i] <= 1,
    ensures
        covers(take_back(norm, keep, remaining, s), counts),
        fse_table::cells_before(take_back(norm, keep, remaining, s), norm.len()) == size,
    decreases s,
{
    if remaining > 0 {
        if s == 0 {
            lemma_one_cell_each(norm, counts, norm.len());
        } else {
            let i = s - 1;
            if i == keep || norm[i] <= 1 {
                lemma_take_back(norm, counts, size, keep, remaining, i as nat);
            } else {
                let take = if remaining < norm[i] - 1 {
                    remaining
                } else {
                    norm[i] - 1
                };
                let next = norm.update(i, norm[i] - take);
                lemma_cells_update(norm, i, norm[i] - take, norm.len());
                assert(covers(next, counts)) by {
                    assert forall|k: int| 0 <= k < next.len() implies #[trigger] next[k] >= -1 && (
                    next[k] != 0 <==> counts[k] > 0) by {
                        assert(norm[k] >= -1 && (norm[k] != 0 <==> counts[k] > 0));
                    }
                }
                lemma_take_back(next, counts, size, keep, remaining - take, i as nat);
            }
        }
    }
}

/// Normalized counts are a distribution that covers the symbols.
pub proof fn lemma_normalized(counts: Seq<u32>, log: nat)
    requires
        1 <= counts.len() <= 256,
        4 <= log <= 14,
        used_count(counts, counts.len()) <= pow2(log),
        count_sum(counts, counts.len()) > 0,
    ensures
        fse_table::is_distribution(normalized(counts, pow2(log)), log),
        covers(normalized(counts, pow2(log)), counts),
{
    let n = counts.len();
    let size = pow2(log);
    let total = count_sum(counts, n);
    let shares = Seq::new(n, |s: int| share(counts[s] as nat, size, total));
    let largest = largest_of(counts, n) as int;
    let adjusted = shares[largest] + size - fse_table::cells_before(shares, n);
    lemma_largest(counts, n);
    assert(covers(shares, counts)) by {
        assert forall|s: int| 0 <= s < n implies #[trigger] shares[s] >= -1 && (shares[s] != 0
            <==> counts[s] > 0) by {
            lemma_count_sum_member(counts, n, s);
            lemma_share_bound(counts[s] as nat, size, total);
        }
    }
    lemma_largest_share(counts, size);
    if adjusted >= 1 {
        let norm = shares.update(largest, adjusted);
        lemma_cells_update(shares, largest, adjusted, n);
        assert forall|s: int| 0 <= s < n implies #[trigger] norm[s] >= -1 && (norm[s] != 0
            <==> counts[s] > 0) by {
            assert(shares[s] >= -1 && (shares[s] != 0 <==> counts[s] > 0));
        }
    } else {
        let norm = shares.update(largest, 1);
        lemma_cells_update(shares, largest, 1, n);
        assert(covers(norm, counts)) by {
            assert forall|s: int| 0 <= s < n implies #[trigger] norm[s] >= -1 && (norm[s] != 0
                <==> counts[s] > 0) by {
                assert(shares[s] >= -1 && (shares[s] != 0 <==> counts[s] > 0));
            }
        }
        lemma_take_back(norm, counts, size, largest, 1 - adjusted, n);
    }
}

/// The most frequent symbol has a share of its own.
proof fn lemma_largest_share(counts: Seq<u32>, size: nat)
    requires
        1 <= counts.len(),
        used_count(counts, counts.len()) <= size,
        count_sum(counts, counts.len()) > 0,
    ensures
        share(
            counts[largest_of(counts, counts.len()) as int] as nat,
            size,
            count_sum(counts, counts.len()),
        ) >= 1,
        counts[largest_of(counts, counts.len()) as int] > 0,
{
    let n = counts.len();
    let total = count_sum(counts, n);
    let c = counts[largest_of(counts, n) as int] as nat;
    let u = used_count(counts, n);
    lemma_largest(counts, n);
    assert(c * size >= total) by (nonlinear_arith)
        requires
            total <= u * c,
            u <= size,
    ;
    assert(c > 0) by (nonlinear_arith)
        requires
            total <= u * c,
            total > 0,
            c >= 0,
    ;
    lemma_div_is_ordered(total as int, (c * size) as int, total as int);
    assert(total / total == 1);
}

/// Normalizes the counts of the symbols up to `max_symbol` to `2^table_log` cells.
pub fn normalize_counts(counts: &[u32], max_symbol: usize, table_log: u32) -> (norm: Vec<i16>)
    requires
        max_symbol < counts@.len(),
        table_log <= 14,
        used_count(counts@, (max_symbol + 1) as nat) <= 16384,
    ensures
        norm@.len() == max_symbol + 1,
        as_probs(norm@) == normalized(
            counts@.take(max_symbol + 1),
            pow2(table_log as nat),
        ),
{
    let have = counts.len();
    assert(max_symbol < have);
    let n: usize = max_symbol + 1;
    let ghost used = counts@.take(n as int);
    let ghost size = pow2(table_log as nat);
    proof {
        lemma2_to64();
        bits::lemma_pow2_monotone(table_log as nat, 14);
        lemma_prefix(counts@, used, n as nat);
        lemma_largest(used, n as nat);
    }
    let table_size = pow2_u32(table_log);
    let mut total: u64 = 0;
    let mut s: usize = 0;
    while s < n
        invariant
            s <= n,
            n <= counts@.len(),
            used == counts@.take(n as int),
            used_count(used, n as nat) <= 16384,
            total == count_sum(used, s as nat),
            total <= used_count(used, s as nat) * 0xFFFF_FFFF,
        decreases n - s,
    {
        proof {
            lemma_count_sum_monotone(used, (s + 1) as nat, n as nat);
        }
        total = total + counts[s] as u64;
        s = s + 1;
    }
    let mut norm: Vec<i16> = Vec::new();
    if total == 0 {
        s = 0;
        while s < n
            invariant
                s <= n,
                norm@.len() == s,
                forall|i: int| 0 <= i < s ==> #[trigger] norm@[i] == 0,
            decreases n - s,
        {
            norm.push(0);
            s = s + 1;
        }
        assert(as_probs(norm@) =~= normalized(used, size));
        return norm;
    }
    let ghost shares = Seq::new(n as nat, |s: int| share(used[s] as nat, size, total as nat));
    let mut distributed: i32 = 0;
    let mut largest_sym: usize = 0;
    let mut largest_count: u32 = 0;
    s = 0;
    while s < n
        invariant
            s <= n,
            n <= counts@.len(),
            used == counts@.take(n as int),
            used_count(used, n as nat) <= 16384,
            size == table_size,
            size == pow2(table_log as nat),
            1 <= table_size <= 16384,
            total == count_sum(used, n as nat),
            total > 0,
            shares == Seq::new(n as nat, |s: int| share(used[s] as nat, size, total as nat)),
            norm@.len() == s,
            forall|i: int| 0 <= i < s ==> #[trigger] norm@[i] == shares[i],
            forall|i: int| 0 <= i < s ==> -1 <= #[trigger] norm@[i] <= 16384,
            distributed == fse_table::cells_before(shares, s as nat),
            distributed <= used_count(used, s as nat) * 16384,
            s > 0 ==> largest_sym == largest_of(used, s as nat),
            s > 0 ==> largest_count == used[largest_sym as int],
            s == 0 ==> largest_count == 0 && largest_sym == 0,
            largest_sym < n,
        decreases n - s,
    {
        let c = counts[s];
        proof {
            lemma_count_sum_member(used, n as nat, s as int);
            lemma_share_bound(c as nat, size, total as nat);
            lemma_mul_upper_bound(c as int, 0xFFFF_FFFF, table_size as int, 16384);
            lemma_count_sum_monotone(used, (s + 1) as nat, n as nat);
            if s > 0 {
                lemma_largest(used, s as nat);
            }
        }
        if c > largest_count {
            largest_count = c;
            largest_sym = s;
        }
        if c == 0 {
            norm.push(0);
        } else {
            let prob = c as u64 * table_size as u64 / total;
            if prob == 0 {
                norm.push(-1);
                distributed = distributed + 1;
            } else {
                norm.push(prob as i16);
                distributed = distributed + prob as i32;
            }
        }
        s = s + 1;
    }
    proof {
        assert(as_probs(norm@) =~= shares);
        lemma_cells_le(shares, largest_sym as int, n as nat);
    }
    let adjusted: i32 = norm[largest_sym] as i32 + table_size as i32 - distributed;
    if adjusted >= 1 {
        norm[largest_sym] = adjusted as i16;
        assert(as_probs(norm@) =~= shares.update(largest_sym as int, adjusted as int));
        return norm;
    }
    norm[largest_sym] = 1;
    let mut remaining: i32 = 1 - adjusted;
    let ghost goal = normalized(used, size);
    assert(as_probs(norm@) =~= shares.update(largest_sym as int, 1));
    s = n;
    while s > 0 && remaining > 0
        invariant
            s <= n,
            norm@.len() == n,
            remaining >= 0,
            forall|i: int| 0 <= i < n ==> -1 <= #[trigger] norm@[i] <= 16384,
            goal == take_back(
                as_probs(norm@),
                largest_sym as int,
                remaining as int,
                s as nat,
            ),
        decreases s,
    {
        s = s - 1;
        if s != largest_sym && norm[s] > 1 {
            let room: i32 = norm[s] as i32 - 1;
            let take: i32 = if remaining < room {
                remaining
            } else {
                room
            };
            let ghost before = as_probs(norm@);
            norm[s] = (norm[s] as i32 - take) as i16;
            remaining = remaining - take;
            assert(as_probs(norm@) =~= before.update(s as int, before[s as int] - take));
        }
    }
    norm
}

pub proof fn lemma_cells_le(p: Seq<int>, i: int, n: nat)
    requires
        0 <= i < n <= p.len(),
    ensures
        fse_table::cells(p[i]) <= fse_table::cells_before(p, n),
    decreases n,
{
    if i < n - 1 {
        lemma_cells_le(p, i, (n - 1) as nat);
    }
}

/// Something was counted if and only if some symbol is used.
pub proof fn lemma_used_bound(counts: Seq<u32>, n: nat)
    requires
        n <= counts.len(),
    ensures
        used_count(counts, n) <= n,
        used_count(counts, n) > 0 <==> count_sum(counts, n) > 0,
        forall|i: int| 0 <= i < n && #[trigger] counts[i] > 0 ==> used_count(counts, n) > 0,
    decreases n,
{
    if n > 0 {
        lemma_used_bound(counts, (n - 1) as nat);
    }
}

pub proof fn lemma_count_sum_monotone(counts: Seq<u32>, a: nat, b: nat)
    requires
        a <= b,
    ensures
        count_sum(counts, a) <= count_sum(counts, b),
        used_count(counts, a) <= used_count(counts, b),
    decreases b,
{
    if a < b {
        lemma_count_sum_monotone(counts, a, (b - 1) as nat);
    }
}

/// Sums over a prefix depend on nothing else.
proof fn lemma_prefix(a: Seq<u32>, b: Seq<u32>, n: nat)
    requires
        n <= a.len(),
        n <= b.len(),
        forall|i: int| 0 <= i < n ==> a[i] == b[i],
    ensures
        count_sum(a, n) == count_sum(b, n),
        used_count(a, n) == used_count(b, n),
    decreases n,
{
    if n > 0 {
        lemma_prefix(a, b, (n - 1) as nat);
    }
}

} // verus!
