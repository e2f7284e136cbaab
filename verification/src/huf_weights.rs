//! FSE compression of Huffman weights.
use crate::bitreader;
use crate::bitreader::RevBits;
use crate::bits;
use crate::bitstream::BackwardBitWriter;
use crate::error::DecodeError;
use crate::fse;
use crate::fse::FseCTable;
use crate::fse_decode::FseTab;
use crate::fse_header;
use crate::fse_header::encode_fse_header;
use crate::fse_table;
use crate::huffman;
use crate::normalize;
use crate::seq_section;
use crate::seq_section::{count_codes, count_used};
use crate::sequences::CodeTab;
use vstd::arithmetic::div_mod::*;
use vstd::arithmetic::power2::*;
use vstd::prelude::*;

verus! {

// ---------------------------------------------------------------------------
// Normalization
// ---------------------------------------------------------------------------

/// The share of a weight in 64 cells: rounded down, but at least one cell.
pub open spec fn weight_share(count: nat, total: nat) -> int {
    if count == 0 {
        0
    } else if count * 64 / total < 1 {
        1
    } else {
        (count * 64 / total) as int
    }
}

/// The first symbol from `s` on with more than one cell.
pub open spec fn first_large(norm: Seq<int>, s: nat) -> nat
    decreases norm.len() - s,
{
    if s >= norm.len() || norm[s as int] > 1 {
        s
    } else {
        first_large(norm, s + 1)
    }
}

/// Takes cells away, always from the first symbol that has more than one, until 64 of
/// the `dist` cells are left.
pub open spec fn shrink(norm: Seq<int>, dist: nat) -> Seq<int>
    decreases dist,
{
    if dist <= 64 {
        norm
    } else {
        let i = first_large(norm, 0) as int;
        shrink(norm.update(i, norm[i] - 1), (dist - 1) as nat)
    }
}

/// The last of the largest among the first `n` counts.
pub open spec fn last_largest(counts: Seq<u32>, n: nat) -> nat
    decreases n,
{
    if n <= 1 {
        0
    } else {
        let best = last_largest(counts, (n - 1) as nat);
        if counts[n - 1] >= counts[best as int] {
            (n - 1) as nat
        } else {
            best
        }
    }
}

/// The counts of weights, normalized to 64 cells.
pub open spec fn weight_norm(counts: Seq<u32>, total: nat) -> Seq<int> {
    let shares = Seq::new(counts.len(), |s: int| weight_share(counts[s] as nat, total));
    let dist = fse_table::cells_before(shares, counts.len());
    if dist < 64 {
        let best = last_largest(counts, counts.len()) as int;
        shares.update(best, shares[best] + 64 - dist)
    } else {
        shrink(shares, dist)
    }
}

proof fn lemma_first_large(norm: Seq<int>, s: nat)
    requires
        s <= norm.len(),
    ensures
        s <= first_large(norm, s) <= norm.len(),
        first_large(norm, s) < norm.len() ==> norm[first_large(norm, s) as int] > 1,
        forall|i: int| s <= i < first_large(norm, s) ==> #[trigger] norm[i] <= 1,
    decreases norm.len() - s,
{
    if s < norm.len() && norm[s as int] <= 1 {
        lemma_first_large(norm, s + 1);
    }
}

proof fn lemma_last_largest(counts: Seq<u32>, n: nat)
    requires
        1 <= n <= counts.len(),
    ensures
        last_largest(counts, n) < n,
        forall|i: int| 0 <= i < n ==> #[trigger] counts[i] <= counts[last_largest(
            counts,
            n,
        ) as int],
    decreases n,
{
    if n > 1 {
        lemma_last_largest(counts, (n - 1) as nat);
    }
}

proof fn lemma_weight_share(count: nat, total: nat)
    requires
        count <= total,
        total > 0,
    ensures
        0 <= weight_share(count, total) <= 64,
        weight_share(count, total) > 0 <==> count > 0,
{
    if count > 0 {
        lemma_div_is_ordered((count * 64) as int, (total * 64) as int, total as int);
        lemma_div_multiples_vanish(64, total as int);
        assert(total * 64 == 64 * total);
    }
}

/// Enough cells are taken away.
pub proof fn lemma_shrink(norm: Seq<int>, counts: Seq<u32>, dist: nat)
    requires
        normalize::covers(norm, counts),
        norm.len() <= 13,
        dist >= 64,
        forall|s: int| 0 <= s < norm.len() ==> #[trigger] norm[s] >= 0,
        dist == fse_table::cells_before(norm, norm.len()),
    ensures
        normalize::covers(shrink(norm, dist), counts),
        forall|s: int|
            0 <= s < norm.len() ==> 0 <= #[trigger] shrink(norm, dist)[s] <= norm[s],
        fse_table::cells_before(shrink(norm, dist), norm.len()) == 64,
    decreases dist,
{
    if dist > 64 {
        let n = norm.len();
        let i = first_large(norm, 0) as int;
        lemma_first_large(norm, 0);
        if i == n {
            normalize::lemma_one_cell_each(norm, counts, n);
            normalize::lemma_used_bound(counts, n);
        }
        let next = norm.update(i, norm[i] - 1);
        normalize::lemma_cells_update(norm, i, norm[i] - 1, n);
        assert(normalize::covers(next, counts)) by {
            assert forall|k: int| 0 <= k < n implies #[trigger] next[k] >= -1 && (next[k] != 0
                <==> counts[k] > 0) by {
                assert(norm[k] >= -1 && (norm[k] != 0 <==> counts[k] > 0));
            }
        }
        assert forall|s: int| 0 <= s < n implies #[trigger] next[s] >= 0 by {
            assert(norm[s] >= 0);
        }
        lemma_shrink(next, counts, (dist - 1) as nat);
    }
}

/// Normalized counts of weights are a distribution that covers the weights.
proof fn lemma_weight_norm(counts: Seq<u32>, total: nat)
    requires
        1 <= counts.len() <= 13,
        0 < total,
        normalize::count_sum(counts, counts.len()) == total,
    ensures
        fse_table::is_distribution(weight_norm(counts, total), 6),
        normalize::covers(weight_norm(counts, total), counts),
        forall|s: int| 0 <= s < counts.len() ==> #[trigger] weight_norm(counts, total)[s] >= 0,
{
    let n = counts.len();
    let shares = Seq::new(n, |s: int| weight_share(counts[s] as nat, total));
    let dist = fse_table::cells_before(shares, n);
    lemma2_to64();
    assert forall|s: int| 0 <= s < n implies #[trigger] shares[s] >= 0 && (shares[s] != 0
        <==> counts[s] > 0) by {
        normalize::lemma_count_sum_member(counts, n, s);
        lemma_weight_share(counts[s] as nat, total);
    }
    assert(normalize::covers(shares, counts)) by {
        assert forall|s: int| 0 <= s < n implies #[trigger] shares[s] >= -1 && (shares[s] != 0
            <==> counts[s] > 0) by {
            assert(shares[s] >= 0);
        }
    }
    if dist < 64 {
        let best = last_largest(counts, n) as int;
        let norm = shares.update(best, shares[best] + 64 - dist);
        lemma_last_largest(counts, n);
        lemma_largest_used(counts, n, best);
        normalize::lemma_cells_update(shares, best, shares[best] + 64 - dist, n);
        assert forall|s: int| 0 <= s < n implies #[trigger] norm[s] >= 0 && (norm[s] != 0
            <==> counts[s] > 0) by {
            assert(shares[s] >= 0 && (shares[s] != 0 <==> counts[s] > 0));
        }
    } else {
        lemma_shrink(shares, counts, dist);
    }
}

/// Normalizes the counts of weights.
fn normalize_weights(counts: &[u32], total: u32) -> (norm: Vec<i16>)
    requires
        1 <= counts@.len() <= 13,
        0 < total,
        normalize::count_sum(counts@, counts@.len()) == total,
    ensures
        norm@.len() == counts@.len(),
        normalize::as_probs(norm@) == weight_norm(counts@, total as nat),
{
    let n = counts.len();
    let ghost shares = Seq::new(n as nat, |s: int| weight_share(counts@[s] as nat, total as nat));
    let mut norm: Vec<i16> = Vec::new();
    let mut dist: u32 = 0;
    let mut best: usize = 0;
    let mut s: usize = 0;
    while s < n
        invariant
            s <= n,
            n == counts@.len(),
            n <= 13,
            total > 0,
            normalize::count_sum(counts@, n as nat) == total,
            shares == Seq::new(
                n as nat,
                |s: int| weight_share(counts@[s] as nat, total as nat),
            ),
            norm@.len() == s,
            forall|i: int| 0 <= i < s ==> #[trigger] norm@[i] == shares[i],
            forall|i: int| 0 <= i < s ==> 0 <= #[trigger] norm@[i] <= 64,
            forall|i: int| 0 <= i < s ==> (#[trigger] norm@[i] != 0 <==> counts@[i] > 0),
            dist == fse_table::cells_before(shares, s as nat),
            dist <= 64 * s,
            s > 0 ==> best == last_largest(counts@, s as nat),
            s == 0 ==> best == 0,
            best < n,
        decreases n - s,
    {
        let c = counts[s];
        proof {
            normalize::lemma_count_sum_member(counts@, n as nat, s as int);
            lemma_weight_share(c as nat, total as nat);
        }
        if c == 0 {
            norm.push(0);
        } else {
            let prob = c as u64 * 64 / total as u64;
            let cells: u32 = if prob < 1 {
                1
            } else {
                prob as u32
            };
            norm.push(cells as i16);
            dist = dist + cells;
        }
        if s > 0 && c >= counts[best] {
            best = s;
        }
        s = s + 1;
    }
    assert(normalize::as_probs(norm@) =~= shares);
    if dist < 64 {
        proof {
            lemma_last_largest(counts@, n as nat);
        }
        norm[best] = norm[best] + (64 - dist) as i16;
        assert(normalize::as_probs(norm@) =~= shares.update(
            best as int,
            shares[best as int] + 64 - dist,
        ));
        return norm;
    }
    let ghost goal = weight_norm(counts@, total as nat);
    while dist > 64
        invariant
            n == counts@.len(),
            n <= 13,
            norm@.len() == n,
            dist >= 64,
            goal == shrink(normalize::as_probs(norm@), dist as nat),
            dist == fse_table::cells_before(normalize::as_probs(norm@), n as nat),
            forall|i: int| 0 <= i < n ==> 0 <= #[trigger] norm@[i] <= 64,
            forall|i: int| 0 <= i < n ==> (#[trigger] norm@[i] != 0 <==> counts@[i] > 0),
        decreases dist,
    {
        let ghost before = normalize::as_probs(norm@);
        let mut i: usize = 0;
        proof {
            lemma_first_large(before, 0);
            if first_large(before, 0) == n {
                assert forall|i: int| 0 <= i < n implies #[trigger] before[i] <= 1 && before[i]
                    >= -1 by {
                    assert(norm@[i] >= 0);
                }
                assert forall|i: int| 0 <= i < n implies (#[trigger] before[i] != 0 <==> counts@[i]
                    > 0) by {
                    assert(norm@[i] != 0 <==> counts@[i] > 0);
                }
                normalize::lemma_one_cell_each(before, counts@, n as nat);
                normalize::lemma_used_bound(counts@, n as nat);
            }
        }
        while norm[i] <= 1
            invariant
                i < n,
                n == norm@.len(),
                before == normalize::as_probs(norm@),
                first_large(before, i as nat) == first_large(before, 0),
                first_large(before, 0) < n,
            decreases n - i,
        {
            i = i + 1;
            proof {
                lemma_first_large(before, i as nat);
                if i == n {
                    assert(first_large(before, i as nat) == n);
                }
            }
        }
        norm[i] = norm[i] - 1;
        dist = dist - 1;
        proof {
            assert(normalize::as_probs(norm@) =~= before.update(i as int, before[i as int] - 1));
            normalize::lemma_cells_update(before, i as int, before[i as int] - 1, n as nat);
        }
    }
    norm
}

/// The largest count is not zero where something was counted.
proof fn lemma_largest_used(counts: Seq<u32>, n: nat, best: int)
    requires
        1 <= n <= counts.len(),
        0 <= best < n,
        forall|i: int| 0 <= i < n ==> #[trigger] counts[i] <= counts[best],
        normalize::count_sum(counts, n) > 0,
    ensures
        counts[best] > 0,
{
    if counts[best] == 0 {
        lemma_zero_sum(counts, n);
    }
}

proof fn lemma_zero_sum(counts: Seq<u32>, n: nat)
    requires
        n <= counts.len(),
        forall|i: int| 0 <= i < n ==> #[trigger] counts[i] <= 0,
    ensures
        normalize::count_sum(counts, n) == 0,
    decreases n,
{
    if n > 0 {
        lemma_zero_sum(counts, (n - 1) as nat);
        assert(counts[n - 1] <= 0);
    }
}

// ---------------------------------------------------------------------------
// Two interleaved streams
// ---------------------------------------------------------------------------

/// What is written, and the cells of two neighbouring weights.
pub struct WeightRun {
    pub bits: Seq<bool>,
    pub here: nat,
    pub after: nat,
}

/// Where the encoder stands once the weights from the `k`th on are written.  Each
/// weight is written before the one two places after it.
pub open spec fn weight_run(t: CodeTab, w: Seq<u8>, k: nat) -> WeightRun
    decreases w.len() - k,
{
    if k + 2 >= w.len() {
        WeightRun {
            bits: Seq::empty(),
            here: fse::enc_init(t, w[k as int] as int),
            after: fse::enc_init(t, w[k as int + 1] as int),
        }
    } else {
        let e = weight_run(t, w, k + 1);
        WeightRun {
            bits: e.bits + bits::bits_of(e.after, fse::enc_width(t, e.after, w[k as int] as int)),
            here: fse::enc_next(t, e.after, w[k as int] as int),
            after: e.here,
        }
    }
}

/// The bits of the two streams.
pub open spec fn weight_bits(t: CodeTab, w: Seq<u8>) -> Seq<bool> {
    let e = weight_run(t, w, 0);
    e.bits + bits::bits_of(e.after, fse::cell_bits(t)) + bits::bits_of(e.here, fse::cell_bits(t))
}

pub open spec fn weights_encodable(t: CodeTab, w: Seq<u8>) -> bool {
    forall|i: int| 0 <= i < w.len() ==> fse::can_encode(t, #[trigger] w[i] as int)
}

proof fn lemma_weight_run_cells(t: CodeTab, w: Seq<u8>, k: nat)
    requires
        weights_encodable(t, w),
        t.rle is None,
        k + 2 <= w.len(),
    ensures
        fse::is_cell(t, weight_run(t, w, k).here),
        fse::is_cell(t, weight_run(t, w, k).after),
        t.code(weight_run(t, w, k).here) == w[k as int],
        t.code(weight_run(t, w, k).after) == w[k as int + 1],
    decreases w.len() - k,
{
    if k + 2 == w.len() {
        assert(fse::can_encode(t, w[k as int] as int));
        assert(fse::can_encode(t, w[k as int + 1] as int));
        fse::lemma_enc_init(t, w[k as int] as int);
        fse::lemma_enc_init(t, w[k as int + 1] as int);
    } else {
        lemma_weight_run_cells(t, w, k + 1);
        assert(fse::can_encode(t, w[k as int] as int));
        fse::lemma_enc_step(
            t,
            weight_run(t, w, k + 1).after,
            w[k as int] as int,
            Seq::empty(),
        );
    }
}

/// A weight that does not fill the table is started in a cell that bits lead on from.
proof fn lemma_last_cell(t: FseTab, s: int)
    requires
        fse_table::is_distribution(t.probs, t.log),
        fse::has_cells(t, s),
        fse_table::cells(t.probs[s]) < pow2(t.log),
    ensures
        t.next(fse::cell_of(t, s, 0)).bits >= 1,
{
    fse::lemma_cell_of(t, s, 0);
    let n = fse_table::cells(t.probs[s]);
    let e = fse_table::ceil_log2(n);
    fse_table::lemma_ceil_log2(n);
    fse_table::lemma_ceil_log2_bound(n, t.log);
    if pow2(e) == n {
        if e == t.log {
            assert(false);
        }
    }
}

/// One weight of two: the decoder reads back the weight two places on.
proof fn lemma_weight_step(t: CodeTab, w: Seq<u8>, k: nat)
    requires
        weights_encodable(t, w),
        t.rle is None,
        k + 2 < w.len(),
    ensures
        ({
            let e = weight_run(t, w, k);
            let f = weight_run(t, w, k + 1);
            let r = RevBits { bits: e.bits, debt: 0 };
            &&& e.after == f.here
            &&& t.tab.step(e.here, r) == f.after
            &&& r.skip(t.tab.next(e.here).bits) == (RevBits { bits: f.bits, debt: 0 })
        }),
{
    lemma_weight_run_cells(t, w, k + 1);
    assert(fse::can_encode(t, w[k as int] as int));
    let f = weight_run(t, w, k + 1);
    fse::lemma_enc_step(t, f.after, w[k as int] as int, f.bits);
}

/// The decoder reads back the weights from the `k`th on.
proof fn lemma_read_weights(t: CodeTab, w: Seq<u8>, k: nat, acc: Seq<u8>)
    requires
        weights_encodable(t, w),
        t.rle is None,
        k + 2 <= w.len() <= 255,
        acc == w.take(k as int),
        forall|i: int|
            0 <= i < w.len() ==> fse_table::cells(t.tab.probs[#[trigger] w[i] as int]) < pow2(
                t.tab.log,
            ),
    ensures
        ({
            let e = weight_run(t, w, k);
            huffman::weights_loop(
                t.tab,
                e.here,
                e.after,
                RevBits { bits: e.bits, debt: 0 },
                acc,
            ) == Ok::<Seq<u8>, DecodeError>(w)
        }),
    decreases w.len() - k,
{
    let e = weight_run(t, w, k);
    let r = RevBits { bits: e.bits, debt: 0 };
    lemma_weight_run_cells(t, w, k);
    assert(t.tab.symbol(e.here) == w[k as int]);
    assert(t.tab.symbol(e.after) == w[k as int + 1]);
    let acc1 = acc.push(w[k as int]);
    let acc2 = acc1.push(w[k as int + 1]);
    assert(acc2 =~= w.take(k as int + 2));
    if k + 2 == w.len() {
        assert(fse::can_encode(t, w[k as int] as int));
        lemma_last_cell(t.tab, w[k as int] as int);
        assert(r.skip(t.tab.next(e.here).bits).remaining() < 0);
        assert(w.take(k as int + 2) =~= w);
    } else {
        let f = weight_run(t, w, k + 1);
        lemma_weight_step(t, w, k);
        lemma_weight_run_cells(t, w, k + 1);
        let r1 = RevBits { bits: f.bits, debt: 0 };
        if k + 3 == w.len() {
            assert(fse::can_encode(t, w[k as int + 1] as int));
            lemma_last_cell(t.tab, w[k as int + 1] as int);
            assert(r1.skip(t.tab.next(e.after).bits).remaining() < 0);
            assert(acc2.push(w[k as int + 2]) =~= w);
        } else {
            lemma_weight_step(t, w, k + 1);
            lemma_read_weights(t, w, k + 2, acc2);
        }
    }
}

/// Writes the two streams.
fn encode_weight_streams(table: &FseCTable, w: &[u8]) -> (bytes: Vec<u8>)
    requires
        table.wf(),
        table@.rle is None,
        table.table_log <= 14,
        w@.len() >= 2,
        weights_encodable(table@, w@),
    ensures
        bytes@ == bits::backward_stream(weight_bits(table@, w@)),
{
    let ghost t = table@;
    let mut bw = BackwardBitWriter::new();
    let mut k: usize = w.len() - 2;
    assert(fse::can_encode(t, w@[k as int] as int));
    assert(fse::can_encode(t, w@[k + 1] as int));
    let mut here = table.init_state(w[k] as usize);
    let mut after = table.init_state(w[k + 1] as usize);
    while k > 0
        invariant
            k + 2 <= w@.len(),
            t == table@,
            table.wf(),
            table.table_log <= 14,
            t.rle is None,
            weights_encodable(t, w@),
            bw.wf(),
            bw.pending() < 8,
            bw.bits() == weight_run(t, w@, k as nat).bits,
            table.is_state(here as int),
            table.is_state(after as int),
            table.cell(here as int) == weight_run(t, w@, k as nat).here,
            table.cell(after as int) == weight_run(t, w@, k as nat).after,
        decreases k,
    {
        k = k - 1;
        assert(fse::can_encode(t, w@[k as int] as int));
        let (bits_out, nb, new_state) = table.encode_symbol(after, w[k] as usize);
        proof {
            bits::lemma_bits_of_mod(table.cell(after as int), nb as nat);
        }
        bw.add_bits(bits_out as u64, nb);
        bw.flush_bits();
        after = here;
        here = new_state;
    }
    fse::add_cell(&mut bw, table, after);
    fse::add_cell(&mut bw, table, here);
    bw.finish()
}

// ---------------------------------------------------------------------------
// Compressed weights
// ---------------------------------------------------------------------------

/// The table that weights are compressed with.
pub open spec fn weight_tab(w: Seq<u8>) -> FseTab {
    FseTab { log: 6, probs: weight_norm(seq_section::counts_of(w), w.len()) }
}

/// Compressed weights: a table description and the two streams.  Weights that are all
/// the same are not compressed.
pub open spec fn compressed_weights(w: Seq<u8>) -> Option<Seq<u8>> {
    let counts = seq_section::counts_of(w);
    if w.len() < 2 || normalize::used_count(counts, counts.len()) < 2 {
        None
    } else {
        let t = weight_tab(w);
        Some(
            fse_header::header_bytes(t.probs, 6) + bits::backward_stream(
                weight_bits(CodeTab::of(t, None), w),
            ),
        )
    }
}

/// The table has cells for every weight, and no weight fills it.
spec fn weight_tab_fits(w: Seq<u8>) -> bool {
    let t = weight_tab(w);
    &&& fse_table::is_distribution(t.probs, 6)
    &&& t.probs.len() <= 13
    &&& t.probs[t.probs.len() - 1] != 0
    &&& weights_encodable(CodeTab::of(t, None), w)
    &&& forall|i: int|
        0 <= i < w.len() ==> fse_table::cells(t.probs[#[trigger] w[i] as int]) < pow2(6)
}

/// A table made for weights is one that a decoder takes, and has every weight.
proof fn lemma_weight_tab(w: Seq<u8>)
    requires
        2 <= w.len() <= 255,
        forall|i: int| 0 <= i < w.len() ==> #[trigger] w[i] <= 12,
        normalize::used_count(
            seq_section::counts_of(w),
            seq_section::counts_of(w).len(),
        ) >= 2,
    ensures
        weight_tab_fits(w),
        seq_section::counts_of(w).len() <= 13,
{
    let counts = seq_section::counts_of(w);
    let n = counts.len();
    let t = weight_tab(w);
    seq_section::lemma_counts(w);
    seq_section::lemma_max_of(w, w.len());
    seq_section::lemma_counts_total(w);
    let top = choose|i: int| 0 <= i < w.len() && #[trigger] w[i] == seq_section::max_of(w, w.len());
    assert(w[top] <= 12);
    lemma_weight_norm(counts, w.len());
    lemma2_to64();
    assert(counts[n - 1] > 0);
    assert(t.probs[n - 1] >= -1 && t.probs[n - 1] != 0);
    assert forall|i: int| 0 <= i < w.len() implies fse::can_encode(
        CodeTab::of(t, None),
        #[trigger] w[i] as int,
    ) by {
        assert(counts[w[i] as int] > 0);
        assert(t.probs[w[i] as int] >= -1 && t.probs[w[i] as int] != 0);
    }
    assert forall|i: int| 0 <= i < w.len() implies fse_table::cells(
        t.probs[#[trigger] w[i] as int],
    ) < pow2(6) by {
        lemma_not_full(t.probs, counts, w[i] as int);
    }
}

/// Compresses weights.
pub fn encode_weights_fse(weights: &[u8]) -> (r: Option<Vec<u8>>)
    requires
        weights@.len() <= 255,
        forall|i: int| 0 <= i < weights@.len() ==> #[trigger] weights@[i] <= 12,
    ensures
        match r {
            Some(bytes) => compressed_weights(weights@) == Some(bytes@),
            None => compressed_weights(weights@) is None,
        },
{
    let n = weights.len();
    if n < 2 {
        return None;
    }
    let counts = count_codes(weights);
    proof {
        seq_section::lemma_counts(weights@);
        seq_section::lemma_counts_total(weights@);
    }
    if count_used(&counts) < 2 {
        return None;
    }
    proof {
        lemma_weight_tab(weights@);
    }
    let max_w = counts.len() - 1;
    let norm = normalize_weights(&counts, n as u32);
    assert(fse::norm_probs(norm@, max_w as int) =~= weight_tab(weights@).probs);
    let table = FseCTable::build(&norm, max_w, 6);
    let header = encode_fse_header(&norm, max_w, 6);
    let streams = encode_weight_streams(&table, weights);
    let mut out = header;
    out.extend_from_slice(&streams);
    Some(out)
}

/// Where two symbols have cells, neither has all of them.
proof fn lemma_not_full(norm: Seq<int>, counts: Seq<u32>, s: int)
    requires
        0 <= s < norm.len(),
        normalize::used_count(counts, counts.len()) >= 2,
        normalize::covers(norm, counts),
        fse_table::is_distribution(norm, 6),
    ensures
        fse_table::cells(norm[s]) < pow2(6),
{
    let other = lemma_other_used(counts, counts.len(), s);
    assert(norm[other] >= -1 && norm[other] != 0);
    if other < s {
        normalize::lemma_cells_le(norm, other, s as nat);
    } else {
        normalize::lemma_cells_le(norm, s, other as nat);
    }
    fse_table::lemma_before_monotone(norm, (s + 1) as nat, norm.len());
    fse_table::lemma_before_monotone(norm, (other + 1) as nat, norm.len());
}

proof fn lemma_other_used(counts: Seq<u32>, n: nat, s: int) -> (u: int)
    requires
        n <= counts.len(),
        normalize::used_count(counts, n) >= (if 0 <= s < n {
            2int
        } else {
            1
        }),
    ensures
        0 <= u < n,
        u != s,
        counts[u] > 0,
    decreases n,
{
    if n - 1 != s && counts[n - 1] > 0 {
        n - 1
    } else {
        lemma_other_used(counts, (n - 1) as nat, s)
    }
}

/// Compressed weights are read back, whatever follows them.
pub proof fn lemma_weights_round_trip(w: Seq<u8>, rest: Seq<u8>)
    requires
        w.len() <= 255,
        forall|i: int| 0 <= i < w.len() ==> #[trigger] w[i] <= 12,
        compressed_weights(w) is Some,
    ensures
        ({
            let c = compressed_weights(w)->Some_0;
            huffman::fse_weights(c + rest, c.len()) == Ok::<Seq<u8>, DecodeError>(w)
        }),
{
    lemma_weight_tab(w);
    let t = weight_tab(w);
    let ct = CodeTab::of(t, None);
    let head = fse_header::header_bytes(t.probs, 6);
    let b = weight_bits(ct, w);
    let stream = bits::backward_stream(b);
    let c = head + stream;
    bits::lemma_pack(b + seq![true]);
    assert(stream.len() > 0);
    assert(c + rest =~= head + (stream + rest));
    fse_header::lemma_header_round_trip(stream + rest, t.probs, 6, 6, 255);
    assert((c + rest).subrange(head.len() as int, c.len() as int) =~= stream);
    bitreader::lemma_stream_start(b);
    let e = weight_run(ct, w, 0);
    lemma_weight_run_cells(ct, w, 0);
    let mid = e.bits + bits::bits_of(e.after, 6);
    bitreader::lemma_read_back(mid, e.here, 6);
    bitreader::lemma_read_back(e.bits, e.after, 6);
    lemma_small_mod(e.here, pow2(6));
    lemma_small_mod(e.after, pow2(6));
    assert(w.take(0) =~= Seq::<u8>::empty());
    lemma_read_weights(ct, w, 0, Seq::empty());
}

} // verus!
