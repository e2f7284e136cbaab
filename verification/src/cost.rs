//! Fixed-point estimates of how many bits codes take.
use crate::bits;
use crate::bits::{high_bit_u64, pow2_u64};
use crate::fse_table;
use crate::normalize;
use vstd::arithmetic::div_mod::*;
use vstd::arithmetic::mul::*;
use vstd::arithmetic::power2::*;
use vstd::prelude::*;

verus! {

/// One bit, as a fixed-point number with 40 binary digits after the point.
pub const ONE_BIT: u64 = 0x100_0000_0000;

/// The first `k` binary digits after the point of the binary logarithm of `m / 2^63`,
/// which is at least 1 and less than 2: each squaring brings out one digit.
pub open spec fn log2_digits(m: nat, k: nat) -> nat
    decreases k,
{
    if k == 0 {
        0
    } else {
        let square = m * m / 0x8000_0000_0000_0000;
        if square >= 0x1_0000_0000_0000_0000 {
            pow2((k - 1) as nat) + log2_digits(square / 2, (k - 1) as nat)
        } else {
            log2_digits(square, (k - 1) as nat)
        }
    }
}

/// The binary logarithm of `v` as a fixed-point number.
pub open spec fn log2_fixed(v: nat) -> nat {
    bits::high_bit(v) * ONE_BIT as nat + log2_digits(
        v * pow2((63 - bits::high_bit(v)) as nat),
        40,
    )
}

pub proof fn lemma_log2_digits_bound(m: nat, k: nat)
    ensures
        log2_digits(m, k) < pow2(k),
    decreases k,
{
    lemma2_to64();
    if k > 0 {
        lemma_pow2_unfold(k);
        let square = m * m / 0x8000_0000_0000_0000;
        lemma_log2_digits_bound(square / 2, (k - 1) as nat);
        lemma_log2_digits_bound(square, (k - 1) as nat);
    }
}

proof fn lemma_log2_bound(v: nat)
    ensures
        log2_fixed(v) < (bits::high_bit(v) + 1) * ONE_BIT as nat,
{
    lemma2_to64();
    lemma2_to64_rest();
    lemma_log2_digits_bound(v * pow2((63 - bits::high_bit(v)) as nat), 40);
}

/// The binary logarithm of a power of two is exact.
pub proof fn lemma_log2_of_power(e: nat)
    requires
        e < 64,
    ensures
        log2_fixed(pow2(e)) == e * ONE_BIT as nat,
{
    lemma2_to64_rest();
    lemma_pow2_pos(e);
    lemma_pow2_unfold(e + 1);
    bits::lemma_high_bit_unique(pow2(e), e);
    lemma_pow2_adds(e, (63 - e) as nat);
    lemma_log2_digits_of_one(40);
}

proof fn lemma_log2_digits_of_one(k: nat)
    ensures
        log2_digits(0x8000_0000_0000_0000, k) == 0,
    decreases k,
{
    let m: nat = 0x8000_0000_0000_0000;
    assert(m * m / 0x8000_0000_0000_0000 == m) by {
        lemma_div_multiples_vanish(m as int, 0x8000_0000_0000_0000);
    }
    if k > 0 {
        lemma_log2_digits_of_one((k - 1) as nat);
    }
}

/// Computes the binary logarithm.
pub fn log2_fixed_u32(v: u32) -> (r: u64)
    requires
        v > 0,
    ensures
        r == log2_fixed(v as nat),
        r < (bits::high_bit(v as nat) + 1) * ONE_BIT,
{
    let h = high_bit_u64(v as u64);
    proof {
        lemma2_to64();
        lemma2_to64_rest();
        bits::lemma_high_bit(v as nat);
        if h >= 32 {
            bits::lemma_pow2_monotone(32, h as nat);
        }
        lemma_pow2_adds(h as nat, (63 - h) as nat);
        lemma_pow2_adds((h + 1) as nat, (63 - h) as nat);
        lemma_pow2_unfold((h + 1) as nat);
        let w = pow2((63 - h) as nat);
        assert(v * w < pow2((h + 1) as nat) * w) by (nonlinear_arith)
            requires
                v < pow2((h + 1) as nat),
                w > 0,
        ;
        assert(v * w >= pow2(h as nat) * w) by (nonlinear_arith)
            requires
                v >= pow2(h as nat),
        ;
        lemma_log2_bound(v as nat);
    }
    let mut m: u64 = v as u64 * pow2_u64(63 - h);
    let ghost start = m;
    let mut frac: u64 = 0;
    let mut k: u32 = 40;
    while k > 0
        invariant
            k <= 40,
            m >= 0x8000_0000_0000_0000,
            frac + log2_digits(m as nat, k as nat) == log2_digits(start as nat, 40),
            log2_digits(start as nat, 40) < 0x100_0000_0000,
        decreases k,
    {
        proof {
            lemma_mul_inequality(m as int, 0xFFFF_FFFF_FFFF_FFFF, m as int);
            lemma_mul_upper_bound(
                m as int,
                0xFFFF_FFFF_FFFF_FFFF,
                m as int,
                0xFFFF_FFFF_FFFF_FFFF,
            );
            assert(m * m >= 0x8000_0000_0000_0000 * 0x8000_0000_0000_0000) by (nonlinear_arith)
                requires
                    m >= 0x8000_0000_0000_0000,
            ;
        }
        let square: u128 = (m as u128 * m as u128) / 0x8000_0000_0000_0000;
        k = k - 1;
        if square >= 0x1_0000_0000_0000_0000 {
            m = (square / 2) as u64;
            frac = frac + pow2_u64(k);
        } else {
            m = square as u64;
        }
    }
    h as u64 * ONE_BIT + frac
}

/// `a - b`, but not below zero.
pub open spec fn excess(a: nat, b: nat) -> nat {
    if a > b {
        (a - b) as nat
    } else {
        0
    }
}

/// What the symbols below `n` cost with a fixed table: a symbol with `k` of the `2^log`
/// cells takes `log - log2(k)` bits.
pub open spec fn table_cost(counts: Seq<u32>, norm: Seq<i16>, log: nat, n: nat) -> int
    decreases n,
{
    if n == 0 {
        0
    } else {
        table_cost(counts, norm, log, (n - 1) as nat) + counts[n - 1] * (if counts[n - 1] == 0 {
            0
        } else {
            log * ONE_BIT - log2_fixed(fse_table::cells(norm[n - 1] as int))
        })
    }
}

/// What the symbols below `n` cost with a table made for them: a symbol that occurs
/// `k` times of `total` takes `log2(total) - log2(k)` bits.
pub open spec fn entropy_cost(counts: Seq<u32>, total: nat, n: nat) -> nat
    decreases n,
{
    if n == 0 {
        0
    } else {
        entropy_cost(counts, total, (n - 1) as nat) + counts[n - 1] as nat * (if counts[n - 1]
            == 0 {
            0
        } else {
            excess(log2_fixed(total), log2_fixed(counts[n - 1] as nat))
        })
    }
}

/// A fixed-point number of bits, rounded up; nothing is less than no bits.
pub open spec fn whole_bits(x: int) -> nat {
    if x <= 0 {
        0
    } else {
        (x + ONE_BIT - 1) as nat / ONE_BIT as nat
    }
}

proof fn lemma_term_bound(sum: int, before: nat, c: nat, x: int)
    requires
        -(before * 0x4000_0000_0000) <= sum <= before * 0x4000_0000_0000,
        -0x4000_0000_0000 <= x <= 0x4000_0000_0000,
        before + c <= 0xFFFF_FFFF,
    ensures
        -((before + c) * 0x4000_0000_0000) <= sum + c * x <= (before + c) * 0x4000_0000_0000,
        -0x4000_0000_0000_0000_0000 <= c * x <= 0x4000_0000_0000_0000_0000,
{
    assert(c * x <= c * 0x4000_0000_0000 && c * x >= -(c * 0x4000_0000_0000)) by (nonlinear_arith)
        requires
            -0x4000_0000_0000 <= x <= 0x4000_0000_0000,
            c >= 0,
    ;
}

/// Estimates the bits that codes with the given counts take with a fixed table.
pub fn table_cost_bits(counts: &[u32], norm: &[i16], log: u32, n: usize) -> (r: u64)
    requires
        n <= counts@.len(),
        n <= norm@.len(),
        log < 64,
        normalize::count_sum(counts@, n as nat) <= u32::MAX,
        forall|s: int| 0 <= s < n && #[trigger] counts@[s] > 0 ==> norm@[s] >= -1 && norm@[s] != 0,
    ensures
        r == whole_bits(table_cost(counts@, norm@, log as nat, n as nat)),
        r <= 0x40_0000_0000,
{
    let mut sum: i128 = 0;
    let mut s: usize = 0;
    while s < n
        invariant
            s <= n,
            n <= counts@.len(),
            n <= norm@.len(),
            log < 64,
            normalize::count_sum(counts@, n as nat) <= u32::MAX,
            forall|s: int|
                0 <= s < n && #[trigger] counts@[s] > 0 ==> norm@[s] >= -1 && norm@[s] != 0,
            sum == table_cost(counts@, norm@, log as nat, s as nat),
            -(normalize::count_sum(counts@, s as nat) * 0x4000_0000_0000) <= sum,
            sum <= normalize::count_sum(counts@, s as nat) * 0x4000_0000_0000,
        decreases n - s,
    {
        let c = counts[s];
        proof {
            normalize::lemma_count_sum_monotone(counts@, (s + 1) as nat, n as nat);
        }
        if c > 0 {
            let p = norm[s];
            let cells: u32 = if p == -1 {
                1
            } else {
                p as u32
            };
            let own = log2_fixed_u32(cells);
            proof {
                lemma_u32_log(cells);
            }
            let each: i128 = log as i128 * ONE_BIT as i128 - own as i128;
            proof {
                lemma_term_bound(
                    sum as int,
                    normalize::count_sum(counts@, s as nat),
                    c as nat,
                    each as int,
                );
                assert(table_cost(counts@, norm@, log as nat, (s + 1) as nat) == sum + c * each);
            }
            sum = sum + c as i128 * each;
        } else {
            assert(table_cost(counts@, norm@, log as nat, (s + 1) as nat) == sum);
        }
        s = s + 1;
    }
    if sum <= 0 {
        0
    } else {
        ((sum + (ONE_BIT as i128 - 1)) / ONE_BIT as i128) as u64
    }
}

proof fn lemma_u32_log(v: u32)
    requires
        v > 0,
    ensures
        log2_fixed(v as nat) <= 32 * ONE_BIT,
{
    lemma_log2_bound(v as nat);
    bits::lemma_high_bit(v as nat);
    lemma2_to64();
    if bits::high_bit(v as nat) >= 32 {
        bits::lemma_pow2_monotone(32, bits::high_bit(v as nat));
    }
}

/// Estimates the bits that codes with the given counts take with a table made for them.
pub fn entropy_cost_bits(counts: &[u32], total: u32, n: usize) -> (r: u64)
    requires
        n <= counts@.len(),
        total > 0,
        normalize::count_sum(counts@, n as nat) <= u32::MAX,
    ensures
        r == whole_bits(entropy_cost(counts@, total as nat, n as nat) as int),
        r <= 0x40_0000_0000,
{
    let mut sum: u128 = 0;
    let mut s: usize = 0;
    let full = log2_fixed_u32(total);
    proof {
        lemma_u32_log(total);
    }
    while s < n
        invariant
            s <= n,
            n <= counts@.len(),
            full == log2_fixed(total as nat),
            full <= 0x4000_0000_0000,
            normalize::count_sum(counts@, n as nat) <= u32::MAX,
            sum == entropy_cost(counts@, total as nat, s as nat),
            sum <= normalize::count_sum(counts@, s as nat) * 0x4000_0000_0000,
        decreases n - s,
    {
        let c = counts[s];
        proof {
            normalize::lemma_count_sum_monotone(counts@, (s + 1) as nat, n as nat);
        }
        if c > 0 {
            let own = log2_fixed_u32(c);
            let each = if full > own {
                full - own
            } else {
                0
            };
            proof {
                lemma_term_bound(
                    sum as int,
                    normalize::count_sum(counts@, s as nat),
                    c as nat,
                    each as int,
                );
            }
            assert(each == excess(full as nat, log2_fixed(c as nat)));
            assert(entropy_cost(counts@, total as nat, (s + 1) as nat) == sum + c as nat
                * each as nat);
            sum = sum + c as u128 * each as u128;
        } else {
            assert(entropy_cost(counts@, total as nat, (s + 1) as nat) == sum);
        }
        s = s + 1;
    }
    ((sum + (ONE_BIT as u128 - 1)) / ONE_BIT as u128) as u64
}

} // verus!
