//! FSE decoding: table descriptions, decoding tables and decoder states.
use crate::bitreader;
use crate::bitreader::{BitReader, BitReaderReversed, RevBits};
use crate::bits;
use crate::bits::{high_bit_u64, pow2_u32};
use crate::error::DecodeError;
use crate::fse_table;
use vstd::arithmetic::div_mod::*;
use vstd::arithmetic::mul::*;
use vstd::arithmetic::power2::*;
use vstd::prelude::*;

verus! {

pub const ACC_LOG_OFFSET: u8 = 5;

// ---------------------------------------------------------------------------
// Table descriptions
// ---------------------------------------------------------------------------

/// A normalized distribution as read from a table description.
pub struct FseHeader {
    pub log: nat,
    pub probs: Seq<int>,
    /// The bytes that the description takes.
    pub bytes: nat,
}

/// One probability of a description: its value and the bits that it takes.
pub struct ProbField {
    pub value: nat,
    pub used: nat,
}

/// The width of a probability field when `max` is the largest value it may hold.
pub open spec fn prob_width(max: nat) -> nat {
    bits::high_bit(max) + 1
}

/// Decodes the probability field that starts with the bits of `u`: small values
/// take one bit less.
pub open spec fn prob_field(max: nat, u: nat) -> ProbField {
    let w = prob_width(max);
    let low = (pow2(w) - 1 - max) as nat;
    let half = pow2((w - 1) as nat);
    let small = u % half;
    if small < low {
        ProbField { value: small, used: (w - 1) as nat }
    } else if u >= half {
        ProbField { value: (u - low) as nat, used: w }
    } else {
        ProbField { value: u, used: w }
    }
}

/// Reads the 2-bit repeat flags after a zero probability: each adds as many zero
/// probabilities as it says, and the value 3 announces another flag.
pub open spec fn read_zero_runs(src: Seq<u8>, idx: nat, acc: Seq<int>) -> Result<
    (Seq<int>, nat),
    DecodeError,
>
    decreases 8 * src.len() - idx,
{
    match bitreader::forward_read(src, idx, 2) {
        Err(e) => Err(e),
        Ok(n) => {
            let acc1 = acc + Seq::new(n, |i: int| 0int);
            if n == 3 {
                read_zero_runs(src, idx + 2, acc1)
            } else {
                Ok((acc1, idx + 2))
            }
        },
    }
}

/// Reads probabilities from bit `idx` on until they fill `size` cells, of which
/// `filled` are filled already.
pub open spec fn read_probs(
    src: Seq<u8>,
    idx: nat,
    size: nat,
    filled: nat,
    acc: Seq<int>,
) -> Result<(Seq<int>, nat), DecodeError>
    decreases 8 * src.len() - idx,
{
    if filled >= size {
        Ok((acc, idx))
    } else {
        let max = (size - filled + 1) as nat;
        match bitreader::forward_read(src, idx, prob_width(max)) {
            Err(e) => Err(e),
            Ok(u) => {
                let f = prob_field(max, u);
                let prob = f.value - 1;
                let acc1 = acc.push(prob);
                if prob != 0 {
                    read_probs(src, idx + f.used, size, filled + fse_table::cells(prob), acc1)
                } else {
                    proof {
                        lemma_zero_runs_advance(src, idx + f.used, acc1);
                    }
                    match read_zero_runs(src, idx + f.used, acc1) {
                        Err(e) => Err(e),
                        Ok((acc2, idx2)) => read_probs(src, idx2, size, filled, acc2),
                    }
                }
            },
        }
    }
}

/// The table description at the start of `src`.
pub open spec fn fse_header(src: Seq<u8>, max_log: nat, max_symbol: nat) -> Result<
    FseHeader,
    DecodeError,
> {
    match bitreader::forward_read(src, 0, 4) {
        Err(e) => Err(e),
        Ok(b) => {
            let log = (b + 5) as nat;
            if log > max_log {
                Err(DecodeError::AccuracyLogTooLarge { log: log as u8, max: max_log as u8 })
            } else {
                match read_probs(src, 4, pow2(log), 0, Seq::empty()) {
                    Err(e) => Err(e),
                    Ok((probs, idx)) => if probs.len() > max_symbol + 1 {
                        Err(DecodeError::TooManySymbols { symbols: probs.len() as usize })
                    } else {
                        Ok(FseHeader { log, probs, bytes: (idx + 7) / 8 })
                    },
                }
            }
        },
    }
}

pub proof fn lemma_zero_runs_advance(src: Seq<u8>, idx: nat, acc: Seq<int>)
    ensures
        read_zero_runs(src, idx, acc) matches Ok((_, j)) ==> idx < j <= 8 * src.len(),
    decreases 8 * src.len() - idx,
{
    match bitreader::forward_read(src, idx, 2) {
        Err(e) => {},
        Ok(n) => {
            if n == 3 {
                lemma_zero_runs_advance(src, idx + 2, acc + Seq::new(n, |i: int| 0int));
            }
        },
    }
}

pub proof fn lemma_prob_field(max: nat, u: nat)
    requires
        max >= 2,
        u < pow2(prob_width(max)),
    ensures
        prob_field(max, u).value <= max,
        1 <= prob_field(max, u).used <= prob_width(max),
        pow2((prob_width(max) - 1) as nat) <= max < pow2(prob_width(max)),
        pow2(prob_width(max)) == 2 * pow2((prob_width(max) - 1) as nat),
{
    bits::lemma_high_bit(max);
    lemma_pow2_unfold(prob_width(max));
    let half = pow2((prob_width(max) - 1) as nat);
    lemma_pow2_pos((prob_width(max) - 1) as nat);
    lemma_mod_bound(u as int, half as int);
}

// ---------------------------------------------------------------------------
// Decoding tables
// ---------------------------------------------------------------------------

/// The mathematical view of a decoding table; `log` is 0 before one is built.
#[verifier::ext_equal]
pub struct FseTab {
    pub log: nat,
    pub probs: Seq<int>,
}

impl FseTab {
    pub open spec fn empty() -> FseTab {
        FseTab { log: 0, probs: Seq::empty() }
    }

    pub open spec fn is_valid(self) -> bool {
        self.log > 0 ==> fse_table::is_distribution(self.probs, self.log)
    }

    /// The symbol of cell `p`.
    pub open spec fn symbol(self, p: nat) -> int {
        fse_table::spread(self.probs, self.log)[p as int]
    }

    /// Where the decoder goes from cell `p`.
    pub open spec fn next(self, p: nat) -> fse_table::Transition {
        let s = self.symbol(p);
        fse_table::transition(
            self.log,
            fse_table::cells(self.probs[s]),
            fse_table::occurrences(fse_table::spread(self.probs, self.log), s, p),
        )
    }

    /// The cell after cell `p`, when `r` is unread.
    pub open spec fn step(self, p: nat, r: RevBits) -> nat {
        self.next(p).base + r.peek(self.next(p).bits)
    }
}

/// Cells and transitions stay inside the table.
pub proof fn lemma_tab_cell(t: FseTab, p: nat)
    requires
        t.is_valid(),
        t.log > 0,
        p < pow2(t.log),
    ensures
        0 <= t.symbol(p) < t.probs.len(),
        t.probs[t.symbol(p)] != 0,
        fse_table::cells(t.probs[t.symbol(p)]) >= 1,
        fse_table::cells(t.probs[t.symbol(p)]) <= pow2(t.log),
        fse_table::occurrences(fse_table::spread(t.probs, t.log), t.symbol(p), p)
            < fse_table::cells(t.probs[t.symbol(p)]),
        t.next(p).base + pow2(t.next(p).bits) <= pow2(t.log),
        t.next(p).bits <= t.log,
        pow2(t.log) <= 32768,
{
    let sp = fse_table::spread(t.probs, t.log);
    fse_table::lemma_spread_cell(t.probs, t.log, p as int);
    let s = t.symbol(p);
    fse_table::lemma_spread_counts(t.probs, t.log, s);
    fse_table::lemma_occurrences_monotone(sp, s, p, pow2(t.log));
    fse_table::lemma_before_monotone(t.probs, (s + 1) as nat, t.probs.len());
    fse_table::lemma_transition_bound(
        t.log,
        fse_table::cells(t.probs[s]),
        fse_table::occurrences(sp, s, p),
    );
    lemma2_to64();
    bits::lemma_pow2_monotone(t.log, 15);
}

/// Probabilities as mathematical integers.
pub open spec fn probs_of(v: Seq<i32>) -> Seq<int> {
    Seq::new(v.len(), |i: int| v[i] as int)
}

#[derive(Copy, Clone, Debug)]
pub struct FSEEntry {
    pub base_line: u32,
    pub num_bits: u8,
    pub symbol: u8,
}

impl FSEEntry {
    pub open spec fn is_cell(self, t: FseTab, p: nat) -> bool {
        &&& self.symbol == t.symbol(p)
        &&& self.base_line == t.next(p).base
        &&& self.num_bits == t.next(p).bits
    }
}

/// The next position of the walk that spreads symbols over a table.
fn fse_next_position(p: usize, table_size: usize, Ghost(log): Ghost<nat>) -> (q: usize)
    requires
        4 <= log <= 15,
        table_size == pow2(log),
        p < table_size,
    ensures
        q == (p as nat + fse_table::walk_step(log)) % pow2(log),
        q < table_size,
{
    proof {
        lemma2_to64();
        bits::lemma_pow2_monotone(log, 15);
        lemma_pow2_pos(log);
        lemma_mod_bound(p + fse_table::walk_step(log), pow2(log) as int);
    }
    let next = p + table_size / 2 + table_size / 8 + 3;
    next % table_size
}

/// Spreads the symbols of a distribution over a table.
pub fn spread_table(probs: &[i32], log: u32) -> (table: Vec<u8>)
    requires
        fse_table::is_distribution(probs_of(probs@), log as nat),
    ensures
        table@.len() == pow2(log as nat),
        forall|p: int|
            0 <= p < table@.len() ==> #[trigger] table@[p] == fse_table::spread(
                probs_of(probs@),
                log as nat,
            )[p],
{
    let ghost pr = probs_of(probs@);
    let ghost lg = log as nat;
    let ghost sp = fse_table::spread(pr, lg);
    let ghost m = fse_table::spread_cells(pr);
    proof {
        lemma2_to64();
        bits::lemma_pow2_monotone(lg, 15);
        fse_table::lemma_before_split(pr, pr.len());
    }
    let size = pow2_u32(log) as usize;
    let n = probs.len();
    let mut table: Vec<u8> = vec![0u8; size];
    let mut high: usize = size;
    let mut s: usize = 0;
    while s < n
        invariant
            n == probs@.len(),
            s <= n,
            pr == probs_of(probs@),
            lg == log,
            sp == fse_table::spread(pr, lg),
            fse_table::is_distribution(pr, lg),
            m == fse_table::spread_cells(pr),
            m + fse_table::low_before(pr, n as nat) == pow2(lg),
            size == pow2(lg),
            table@.len() == size,
            high == size - fse_table::low_before(pr, s as nat),
            forall|p: int| high <= p < size ==> #[trigger] table@[p] == sp[p],
        decreases n - s,
    {
        proof {
            fse_table::lemma_before_monotone(pr, (s + 1) as nat, n as nat);
        }
        if probs[s] == -1 {
            proof {
                fse_table::lemma_low_symbol(pr, s as int);
            }
            high = high - 1;
            table[high] = s as u8;
        }
        s = s + 1;
    }
    let mut pos: usize = 0;
    let ghost mut i: nat = 0;
    s = 0;
    proof {
        fse_table::lemma_walk_next(lg, 0);
    }
    while s < n
        invariant
            n == probs@.len(),
            s <= n,
            pr == probs_of(probs@),
            lg == log,
            sp == fse_table::spread(pr, lg),
            fse_table::is_distribution(pr, lg),
            m == fse_table::spread_cells(pr),
            size == pow2(lg),
            size <= 32768,
            table@.len() == size,
            high == m,
            m <= size,
            forall|p: int| m <= p < size ==> #[trigger] table@[p] == sp[p],
            i <= size,
            pos == fse_table::walk(lg, i),
            pos < size,
            m > 0 ==> pos < m,
            fse_table::walk_rank(lg, m, i) == fse_table::spread_before(pr, s as nat),
            forall|j: nat|
                j < i && fse_table::walk(lg, j) < m ==> table@[#[trigger] fse_table::walk(lg, j) as int]
                    == sp[fse_table::walk(lg, j) as int],
        decreases n - s,
    {
        let prob = probs[s];
        let mut k: i32 = 0;
        proof {
            fse_table::lemma_before_monotone(pr, (s + 1) as nat, n as nat);
        }
        while k < prob
            invariant
                n == probs@.len(),
                s < n,
                prob == pr[s as int],
                0 <= k,
                prob > 0 ==> k <= prob,
                prob <= 0 ==> k == 0,
                pr == probs_of(probs@),
                lg == log,
                sp == fse_table::spread(pr, lg),
                fse_table::is_distribution(pr, lg),
                m == fse_table::spread_cells(pr),
                size == pow2(lg),
                size <= 32768,
                table@.len() == size,
                high == m,
                m <= size,
                fse_table::spread_before(pr, (s + 1) as nat) <= m,
                forall|p: int| m <= p < size ==> #[trigger] table@[p] == sp[p],
                i <= size,
                pos == fse_table::walk(lg, i),
                pos < size,
                m > 0 ==> pos < m,
                fse_table::walk_rank(lg, m, i) == fse_table::spread_before(pr, s as nat) + k,
                forall|j: nat|
                    j < i && fse_table::walk(lg, j) < m
                        ==> table@[#[trigger] fse_table::walk(lg, j) as int] == sp[fse_table::walk(
                        lg,
                        j,
                    ) as int],
            decreases prob - k,
        {
            proof {
                fse_table::lemma_walk_rank_full(lg, m);
                if i == size {
                    assert(false);
                }
                fse_table::lemma_walk_inverse(lg, i);
                fse_table::lemma_spread_symbol(
                    pr,
                    s as int,
                    fse_table::walk_rank(lg, m, i) as int,
                );
                assert(sp[pos as int] == s);
            }
            table[pos] = s as u8;
            pos = fse_next_position(pos, size, Ghost(lg));
            proof {
                fse_table::lemma_walk_next(lg, i);
                i = i + 1;
            }
            while pos >= high
                invariant
                    fse_table::is_distribution(pr, lg),
                    size == pow2(lg),
                    high == m,
                    0 < m <= size,
                    i <= size,
                    pos == fse_table::walk(lg, i),
                    pos < size,
                    fse_table::walk_rank(lg, m, i) == fse_table::spread_before(pr, s as nat) + k
                        + 1,
                    forall|j: nat|
                        j < i && fse_table::walk(lg, j) < m
                            ==> table@[#[trigger] fse_table::walk(lg, j) as int]
                            == sp[fse_table::walk(lg, j) as int],
                decreases size - i,
            {
                proof {
                    fse_table::lemma_walk_next(lg, i);
                }
                pos = fse_next_position(pos, size, Ghost(lg));
                proof {
                    i = i + 1;
                }
            }
            k = k + 1;
        }
        s = s + 1;
    }
    proof {
        if m > 0 {
            fse_table::lemma_walk_rank_full(lg, m);
            if i < size {
                fse_table::lemma_walk_rank_monotone(lg, m, i, size as nat);
            }
            assert(i == size);
        }
        assert forall|p: int| 0 <= p < size implies #[trigger] table@[p] == sp[p] by {
            if p < m {
                fse_table::lemma_walk_index(lg, p as nat);
                let j = fse_table::walk_index(lg, p as nat);
                assert(table@[fse_table::walk(lg, j) as int] == sp[p]);
            }
        }
    }
    table
}

/// One more than the position of the highest set bit.
pub fn highest_bit_set(x: u32) -> (n: u32)
    requires
        x > 0,
    ensures
        n == bits::high_bit(x as nat) + 1,
        n <= 32,
        pow2((n - 1) as nat) <= x < pow2(n as nat),
{
    proof {
        lemma2_to64();
        bits::lemma_high_bit(x as nat);
        if bits::high_bit(x as nat) >= 32 {
            bits::lemma_pow2_monotone(32, bits::high_bit(x as nat));
        }
    }
    high_bit_u64(x as u64) + 1
}

proof fn lemma_ceil_log2_cases(n: nat, h: nat)
    requires
        n >= 1,
        pow2(h) <= n < pow2(h + 1),
    ensures
        fse_table::ceil_log2(n) == (if n == pow2(h) {
            h
        } else {
            h + 1
        }),
{
    lemma2_to64();
    if n == 1 {
        if h > 0 {
            bits::lemma_pow2_monotone(1, h);
        }
    } else if n == pow2(h) {
        if h > 0 {
            lemma_pow2_unfold(h);
            lemma_pow2_pos((h - 1) as nat);
            bits::lemma_high_bit_unique((n - 1) as nat, (h - 1) as nat);
        }
    } else {
        bits::lemma_high_bit_unique((n - 1) as nat, h);
    }
}

/// The transition of one cell: its first target and the number of bits to read.
fn fse_calc_baseline_and_numbits(
    num_states_total: u32,
    num_states_symbol: u32,
    state_number: u32,
    Ghost(log): Ghost<nat>,
) -> (r: (u32, u8))
    requires
        log <= 15,
        num_states_total == pow2(log),
        num_states_symbol <= num_states_total,
        num_states_symbol > 0 ==> state_number < num_states_symbol,
    ensures
        num_states_symbol == 0 ==> r == (0u32, 0u8),
        num_states_symbol > 0 ==> r.0 == fse_table::transition(
            log,
            num_states_symbol as nat,
            state_number as nat,
        ).base && r.1 == fse_table::transition(
            log,
            num_states_symbol as nat,
            state_number as nat,
        ).bits,
{
    if num_states_symbol == 0 {
        return (0, 0);
    }
    let h = highest_bit_set(num_states_symbol);
    let ghost e = fse_table::ceil_log2(num_states_symbol as nat);
    proof {
        lemma2_to64();
        bits::lemma_pow2_monotone(log, 15);
        if h > 16 {
            bits::lemma_pow2_monotone(16, (h - 1) as nat);
        }
        lemma_ceil_log2_cases(num_states_symbol as nat, (h - 1) as nat);
        fse_table::lemma_ceil_log2(num_states_symbol as nat);
        fse_table::lemma_ceil_log2_bound(num_states_symbol as nat, log);
    }
    let num_state_slices = if pow2_u32(h - 1) == num_states_symbol {
        num_states_symbol
    } else {
        pow2_u32(h)
    };
    let num_double = num_state_slices - num_states_symbol;
    let num_single = num_states_symbol - num_double;
    let ghost w = pow2((log - e) as nat);
    proof {
        assert(num_state_slices == pow2(e));
        lemma_pow2_adds(e, (log - e) as nat);
        lemma_pow2_pos(e);
        lemma_pow2_pos((log - e) as nat);
        lemma_div_multiples_vanish(w as int, pow2(e) as int);
        lemma_mul_is_commutative(w as int, pow2(e) as int);
    }
    let slice_width = num_states_total / num_state_slices;
    assert(slice_width == w);
    let num_bits = highest_bit_set(slice_width) - 1;
    proof {
        lemma_pow2_unfold((log - e + 1) as nat);
        bits::lemma_high_bit_unique(w, (log - e) as nat);
        fse_table::lemma_transition_bound(log, num_states_symbol as nat, state_number as nat);
    }
    if state_number < num_double {
        proof {
            assert(num_single * w + 2 * state_number * w == (num_single + 2 * state_number) * w)
                by (nonlinear_arith);
            assert(state_number * w * 2 == 2 * state_number * w) by (nonlinear_arith);
            assert(num_single * w >= 0) by (nonlinear_arith);
            assert(2 * state_number * w >= 0) by (nonlinear_arith);
            assert(state_number * w >= 0) by (nonlinear_arith);
        }
        let baseline = num_single * slice_width + state_number * slice_width * 2;
        (baseline, num_bits as u8 + 1)
    } else {
        let index_shifted = state_number - num_double;
        (index_shifted * slice_width, num_bits as u8)
    }
}

#[derive(Debug)]
pub struct FSETable {
    pub max_symbol: u8,
    pub decode: Vec<FSEEntry>,
    pub accuracy_log: u8,
    pub symbol_probabilities: Vec<i32>,
    pub symbol_counter: Vec<u32>,
}

impl FSETable {
    /// The table; empty before one is built.
    pub open spec fn view(&self) -> FseTab {
        if self.accuracy_log == 0 {
            FseTab::empty()
        } else {
            FseTab { log: self.accuracy_log as nat, probs: probs_of(self.symbol_probabilities@) }
        }
    }

    pub open spec fn wf(&self) -> bool {
        &&& self@.is_valid()
        &&& self.accuracy_log > 0 ==> {
            &&& self.symbol_probabilities@.len() <= self.max_symbol + 1
            &&& self.decode@.len() == pow2(self.accuracy_log as nat)
            &&& forall|p: int|
                0 <= p < self.decode@.len() ==> (#[trigger] self.decode@[p]).is_cell(
                    self@,
                    p as nat,
                )
        }
    }

    pub fn new(max_symbol: u8) -> (t: FSETable)
        ensures
            t.wf(),
            t@ == FseTab::empty(),
            t.max_symbol == max_symbol,
    {
        FSETable {
            max_symbol,
            symbol_probabilities: Vec::with_capacity(256),
            symbol_counter: Vec::with_capacity(256),
            decode: Vec::new(),
            accuracy_log: 0,
        }
    }

    /// Makes this table a copy of another one.
    pub fn reinit_from(&mut self, other: &Self)
        requires
            other.wf(),
            other.max_symbol <= old(self).max_symbol,
        ensures
            final(self).wf(),
            final(self)@ == other@,
            final(self).max_symbol == old(self).max_symbol,
    {
        self.reset();
        self.symbol_counter.extend_from_slice(&other.symbol_counter);
        self.symbol_probabilities.extend_from_slice(&other.symbol_probabilities);
        self.decode.extend_from_slice(&other.decode);
        self.accuracy_log = other.accuracy_log;
        proof {
            assert(self.symbol_probabilities@ =~= other.symbol_probabilities@);
            assert(self.decode@ =~= other.decode@);
        }
    }

    /// Forgets the table.
    pub fn reset(&mut self)
        ensures
            final(self).wf(),
            final(self)@ == FseTab::empty(),
            final(self).max_symbol == old(self).max_symbol,
            final(self).symbol_counter@.len() == 0,
            final(self).symbol_probabilities@.len() == 0,
            final(self).decode@.len() == 0,
    {
        self.symbol_counter.clear();
        self.symbol_probabilities.clear();
        self.decode.clear();
        self.accuracy_log = 0;
    }

    /// Reads a table description and builds its table; returns the bytes read.
    pub fn build_decoder(&mut self, source: &[u8], max_log: u8) -> (r: Result<usize, DecodeError>)
        requires
            8 * source@.len() <= usize::MAX,
            max_log <= 15,
        ensures
            final(self).max_symbol == old(self).max_symbol,
            match r {
                Ok(n) => {
                    &&& final(self).wf()
                    &&& fse_header(source@, max_log as nat, old(self).max_symbol as nat) matches Ok(
                        h,
                    )
                    &&& n == h.bytes
                    &&& n <= source@.len()
                    &&& final(self)@ == (FseTab { log: h.log, probs: h.probs })
                    &&& final(self)@.log > 0
                },
                Err(e) => {
                    &&& fse_header(source@, max_log as nat, old(self).max_symbol as nat) == Err::<
                        FseHeader,
                        DecodeError,
                    >(e)
                    &&& final(self).decode == old(self).decode
                    &&& final(self).symbol_counter == old(self).symbol_counter
                },
            },
    {
        self.accuracy_log = 0;
        match self.read_probabilities(source, max_log) {
            Err(e) => Err(e),
            Ok(bytes_read) => {
                self.build_decoding_table();
                Ok(bytes_read)
            },
        }
    }

    /// Builds the table of a given distribution.
    pub fn build_from_probabilities(&mut self, acc_log: u8, probs: &[i32]) -> (r: Result<
        (),
        DecodeError,
    >)
        requires
            acc_log > 0 ==> fse_table::is_distribution(probs_of(probs@), acc_log as nat),
        ensures
            final(self).max_symbol == old(self).max_symbol,
            acc_log == 0 ==> r == Err::<(), DecodeError>(DecodeError::AccuracyLogZero)
                && *final(self) == *old(self),
            acc_log > 0 && probs@.len() > old(self).max_symbol + 1 ==> {
                &&& r == Err::<(), DecodeError>(
                    DecodeError::TooManySymbols { symbols: probs@.len() as usize },
                )
                &&& final(self).symbol_probabilities@ == probs@
                &&& final(self).accuracy_log == acc_log
                &&& final(self).decode == old(self).decode
                &&& final(self).symbol_counter == old(self).symbol_counter
            },
            acc_log > 0 && probs@.len() <= old(self).max_symbol + 1 ==> r is Ok
                && final(self).wf() && final(self)@ == (FseTab {
                log: acc_log as nat,
                probs: probs_of(probs@),
            }),
    {
        if acc_log == 0 {
            return Err(DecodeError::AccuracyLogZero);
        }
        self.symbol_probabilities = vstd::slice::slice_to_vec(probs);
        self.accuracy_log = acc_log;
        if probs.len() > self.max_symbol as usize + 1 {
            return Err(DecodeError::TooManySymbols { symbols: probs.len() });
        }
        self.build_decoding_table();
        Ok(())
    }

    /// Fills the decoding table from the distribution.
    fn build_decoding_table(&mut self)
        requires
            old(self).accuracy_log > 0,
            fse_table::is_distribution(
                probs_of(old(self).symbol_probabilities@),
                old(self).accuracy_log as nat,
            ),
            old(self).symbol_probabilities@.len() <= old(self).max_symbol + 1,
        ensures
            final(self).wf(),
            final(self)@ == old(self)@,
            final(self).max_symbol == old(self).max_symbol,
    {
        let ghost t = self@;
        let ghost sp = fse_table::spread(t.probs, t.log);
        let symbols = spread_table(&self.symbol_probabilities, self.accuracy_log as u32);
        let size = symbols.len();
        let n = self.symbol_probabilities.len();
        self.decode.clear();
        self.symbol_counter.clear();
        self.symbol_counter.resize(n, 0);
        let mut idx: usize = 0;
        proof {
            lemma2_to64();
            bits::lemma_pow2_monotone(t.log, 15);
        }
        while idx < size
            invariant
                self.max_symbol == old(self).max_symbol,
                self.accuracy_log == old(self).accuracy_log,
                self.symbol_probabilities == old(self).symbol_probabilities,
                self.accuracy_log > 0,
                t == self@,
                t.is_valid(),
                sp == fse_table::spread(t.probs, t.log),
                n == self.symbol_probabilities@.len(),
                n == t.probs.len(),
                size == pow2(t.log),
                size <= 32768,
                symbols@.len() == size,
                forall|p: int| 0 <= p < size ==> #[trigger] symbols@[p] == sp[p],
                idx <= size,
                self.decode@.len() == idx,
                self.symbol_counter@.len() == n,
                forall|s: int|
                    0 <= s < n ==> #[trigger] self.symbol_counter@[s] == fse_table::occurrences(
                        sp,
                        s,
                        idx as nat,
                    ),
                forall|p: int|
                    0 <= p < idx ==> (#[trigger] self.decode@[p]).is_cell(t, p as nat),
            decreases size - idx,
        {
            let symbol = symbols[idx];
            proof {
                lemma_tab_cell(t, idx as nat);
            }
            let prob = self.symbol_probabilities[symbol as usize];
            let count = self.symbol_counter[symbol as usize];
            let states: u32 = if prob == -1 {
                1
            } else {
                prob as u32
            };
            let (bl, nb) = fse_calc_baseline_and_numbits(
                size as u32,
                states,
                count,
                Ghost(t.log),
            );
            self.symbol_counter[symbol as usize] = count + 1;
            self.decode.push(FSEEntry { base_line: bl, num_bits: nb, symbol });
            assert(self.decode@[idx as int].is_cell(t, idx as nat));
            idx = idx + 1;
        }
    }

    /// Reads a table description; returns the bytes that it takes.
    pub fn read_probabilities(&mut self, source: &[u8], max_log: u8) -> (r: Result<
        usize,
        DecodeError,
    >)
        requires
            8 * source@.len() <= usize::MAX,
        ensures
            final(self).max_symbol == old(self).max_symbol,
            final(self).decode == old(self).decode,
            final(self).symbol_counter == old(self).symbol_counter,
            match r {
                Ok(n) => {
                    &&& fse_header(source@, max_log as nat, old(self).max_symbol as nat) matches Ok(
                        h,
                    )
                    &&& n == h.bytes
                    &&& n <= source@.len()
                    &&& final(self).accuracy_log == h.log
                    &&& 5 <= h.log <= max_log
                    &&& probs_of(final(self).symbol_probabilities@) == h.probs
                    &&& h.log <= 15 ==> fse_table::is_distribution(h.probs, h.log)
                    &&& h.probs.len() <= old(self).max_symbol + 1
                },
                Err(e) => fse_header(source@, max_log as nat, old(self).max_symbol as nat) == Err::<
                    FseHeader,
                    DecodeError,
                >(e),
            },
    {
        self.symbol_probabilities.clear();
        let mut br = BitReader::new(source);
        proof {
            lemma2_to64();
        }
        let first = match br.get_bits(4) {
            Ok(v) => v as u8,
            Err(e) => {
                return Err(e);
            },
        };
        self.accuracy_log = ACC_LOG_OFFSET + first;
        if self.accuracy_log > max_log {
            return Err(
                DecodeError::AccuracyLogTooLarge { log: self.accuracy_log, max: max_log },
            );
        }
        let ghost log = self.accuracy_log as nat;
        proof {
            bits::lemma_pow2_monotone(log, 20);
            assert(probs_of(self.symbol_probabilities@) =~= Seq::<int>::empty());
        }
        let probability_sum = pow2_u32(self.accuracy_log as u32);
        let mut probability_counter: u32 = 0;
        let ghost whole = read_probs(source@, 4, pow2(log), 0, Seq::empty());
        let ghost goal = fse_header(source@, max_log as nat, old(self).max_symbol as nat);
        while probability_counter < probability_sum
            invariant
                br.wf(),
                br.source == source,
                goal == fse_header(source@, max_log as nat, old(self).max_symbol as nat),
                whole matches Err(e) ==> goal == Err::<FseHeader, DecodeError>(e),
                5 <= log <= 20,
                log == self.accuracy_log,
                self.max_symbol == old(self).max_symbol,
                self.decode == old(self).decode,
                self.symbol_counter == old(self).symbol_counter,
                probability_sum == pow2(log),
                pow2(log) <= 0x10_0000,
                probability_counter <= probability_sum,
                whole == read_probs(
                    source@,
                    br.idx as nat,
                    pow2(log),
                    probability_counter as nat,
                    probs_of(self.symbol_probabilities@),
                ),
                probability_counter == fse_table::cells_before(
                    probs_of(self.symbol_probabilities@),
                    self.symbol_probabilities@.len(),
                ),
                forall|i: int|
                    0 <= i < self.symbol_probabilities@.len()
                        ==> #[trigger] self.symbol_probabilities@[i] >= -1,
            decreases 8 * source@.len() - br.idx,
        {
            let ghost acc = probs_of(self.symbol_probabilities@);
            let ghost idx0 = br.idx as nat;
            let max_remaining_value = probability_sum - probability_counter + 1;
            let bits_to_read = highest_bit_set(max_remaining_value);
            proof {
                lemma2_to64();
                if bits_to_read > 21 {
                    bits::lemma_pow2_monotone(21, (bits_to_read - 1) as nat);
                }
            }
            let unchecked_value = match br.get_bits(bits_to_read as usize) {
                Ok(v) => {
                    proof {
                        bits::lemma_pow2_monotone(bits_to_read as nat, 21);
                    }
                    v as u32
                },
                Err(e) => {
                    return Err(e);
                },
            };
            proof {
                lemma_prob_field(max_remaining_value as nat, unchecked_value as nat);
                bits::lemma_pow2_monotone(bits_to_read as nat, 21);
            }
            let ghost f = prob_field(max_remaining_value as nat, unchecked_value as nat);
            let half = pow2_u32(bits_to_read - 1);
            let low_threshold = (pow2_u32(bits_to_read) - 1) - max_remaining_value;
            let small_value = unchecked_value % half;
            let value = if small_value < low_threshold {
                br.return_bits(1);
                small_value
            } else if unchecked_value >= half {
                unchecked_value - low_threshold
            } else {
                unchecked_value
            };
            assert(value == f.value && br.idx == idx0 + f.used);
            let prob = value as i32 - 1;
            let ghost acc1 = acc.push(prob as int);
            self.symbol_probabilities.push(prob);
            proof {
                assert(probs_of(self.symbol_probabilities@) =~= acc1);
                fse_table::lemma_before_prefix(acc, acc1, acc.len());
            }
            if prob != 0 {
                if prob > 0 {
                    probability_counter = probability_counter + prob as u32;
                } else {
                    probability_counter = probability_counter + 1;
                }
            } else {
                let ghost runs = read_zero_runs(source@, br.idx as nat, acc1);
                let ghost idx1 = br.idx as nat;
                proof {
                    lemma_zero_runs_advance(source@, idx1, acc1);
                }
                let mut more = true;
                while more
                    invariant
                        br.wf(),
                        br.source == source,
                        idx0 < idx1 <= br.idx,
                        goal == fse_header(source@, max_log as nat, old(self).max_symbol as nat),
                        whole matches Err(e) ==> goal == Err::<FseHeader, DecodeError>(e),
                        runs matches Err(e) ==> whole == Err::<(Seq<int>, nat), DecodeError>(e),
                        log == self.accuracy_log,
                        self.max_symbol == old(self).max_symbol,
                        self.decode == old(self).decode,
                        self.symbol_counter == old(self).symbol_counter,
                        more ==> runs == read_zero_runs(
                            source@,
                            br.idx as nat,
                            probs_of(self.symbol_probabilities@),
                        ),
                        !more ==> runs == Ok::<(Seq<int>, nat), DecodeError>(
                            (probs_of(self.symbol_probabilities@), br.idx as nat),
                        ),
                        probability_counter == fse_table::cells_before(
                            probs_of(self.symbol_probabilities@),
                            self.symbol_probabilities@.len(),
                        ),
                        forall|i: int|
                            0 <= i < self.symbol_probabilities@.len()
                                ==> #[trigger] self.symbol_probabilities@[i] >= -1,
                    ensures
                        !more,
                    decreases 8 * source@.len() - br.idx,
                {
                    let skip_amount = match br.get_bits(2) {
                        Ok(v) => {
                            proof {
                                lemma2_to64();
                            }
                            v as usize
                        },
                        Err(e) => {
                            assert(runs == Err::<(Seq<int>, nat), DecodeError>(e));
                            return Err(e);
                        },
                    };
                    let ghost before = probs_of(self.symbol_probabilities@);
                    self.push_zeros(skip_amount);
                    if skip_amount != 3 {
                        more = false;
                    }
                }
            }
        }
        let ghost probs = probs_of(self.symbol_probabilities@);
        if self.symbol_probabilities.len() > self.max_symbol as usize + 1 {
            return Err(
                DecodeError::TooManySymbols { symbols: self.symbol_probabilities.len() },
            );
        }
        let bytes_read = if br.bits_read() % 8 == 0 {
            br.bits_read() / 8
        } else {
            br.bits_read() / 8 + 1
        };
        proof {
            if probs.len() == 0 {
                assert(fse_table::cells_before(probs, 0) == 0);
            }
        }
        Ok(bytes_read)
    }

    /// Appends `n` zero probabilities.
    fn push_zeros(&mut self, n: usize)
        requires
            n <= 3,
            forall|i: int|
                0 <= i < old(self).symbol_probabilities@.len() ==> #[trigger]
                    old(self).symbol_probabilities@[i] >= -1,
        ensures
            final(self).accuracy_log == old(self).accuracy_log,
            final(self).max_symbol == old(self).max_symbol,
            final(self).decode == old(self).decode,
            final(self).symbol_counter == old(self).symbol_counter,
            probs_of(final(self).symbol_probabilities@) == probs_of(old(self).symbol_probabilities@)
                + Seq::new(n as nat, |i: int| 0int),
            fse_table::cells_before(
                probs_of(final(self).symbol_probabilities@),
                final(self).symbol_probabilities@.len(),
            ) == fse_table::cells_before(
                probs_of(old(self).symbol_probabilities@),
                old(self).symbol_probabilities@.len(),
            ),
            forall|i: int|
                0 <= i < final(self).symbol_probabilities@.len() ==> #[trigger]
                    final(self).symbol_probabilities@[i] >= -1,
    {
        let ghost before = probs_of(self.symbol_probabilities@);
        let mut i: usize = 0;
        assert(before + Seq::new(0, |i: int| 0int) =~= before);
        while i < n
            invariant
                i <= n,
                self.accuracy_log == old(self).accuracy_log,
                self.max_symbol == old(self).max_symbol,
                self.decode == old(self).decode,
                self.symbol_counter == old(self).symbol_counter,
                before == probs_of(old(self).symbol_probabilities@),
                probs_of(self.symbol_probabilities@) == before + Seq::new(i as nat, |i: int| 0int),
                fse_table::cells_before(
                    probs_of(self.symbol_probabilities@),
                    self.symbol_probabilities@.len(),
                ) == fse_table::cells_before(before, before.len()),
                forall|i: int|
                    0 <= i < self.symbol_probabilities@.len()
                        ==> #[trigger] self.symbol_probabilities@[i] >= -1,
            decreases n - i,
        {
            let ghost p0 = probs_of(self.symbol_probabilities@);
            self.symbol_probabilities.push(0);
            let ghost p1 = probs_of(self.symbol_probabilities@);
            proof {
                assert(p1 =~= p0.push(0));
                fse_table::lemma_before_prefix(p0, p1, p0.len());
                assert(p1 =~= before + Seq::new((i + 1) as nat, |i: int| 0int));
            }
            i = i + 1;
        }
    }
}

// ---------------------------------------------------------------------------
// Decoder states
// ---------------------------------------------------------------------------

/// A decoder that stands at cell `at` of a table.
pub struct FSEDecoder<'table> {
    pub state: FSEEntry,
    pub table: &'table FSETable,
    pub at: Ghost<nat>,
}

impl<'t> FSEDecoder<'t> {
    /// The decoder stands at a cell of its table.
    pub open spec fn wf(&self) -> bool {
        &&& self.table.wf()
        &&& self.table@.log > 0
        &&& self.at@ < pow2(self.table@.log)
        &&& self.state.is_cell(self.table@, self.at@)
    }

    pub fn new(table: &'t FSETable) -> (d: FSEDecoder<'t>)
        requires
            table.wf(),
        ensures
            d.table == table,
            d.at@ == 0,
            table@.log > 0 ==> d.wf(),
    {
        if table.accuracy_log > 0 {
            proof {
                lemma_pow2_pos(table@.log);
            }
            FSEDecoder { state: table.decode[0], table, at: Ghost(0) }
        } else {
            FSEDecoder {
                state: FSEEntry { base_line: 0, num_bits: 0, symbol: 0 },
                table,
                at: Ghost(0),
            }
        }
    }

    pub fn decode_symbol(&self) -> (s: u8)
        ensures
            s == self.state.symbol,
            self.wf() ==> s == self.table@.symbol(self.at@),
    {
        self.state.symbol
    }

    /// Reads the first state.
    pub fn init_state(&mut self, bits: &mut BitReaderReversed<'_>) -> (r: Result<(), DecodeError>)
        requires
            old(self).table.wf(),
            old(bits).wf(),
            old(bits)@.debt <= 0x1000_0000,
        ensures
            final(self).table == old(self).table,
            final(bits).wf(),
            old(self).table@.log == 0 ==> {
                &&& r == Err::<(), DecodeError>(DecodeError::FseTableUninitialized)
                &&& *final(self) == *old(self)
                &&& final(bits)@ == old(bits)@
            },
            old(self).table@.log > 0 ==> {
                &&& r is Ok
                &&& final(self).wf()
                &&& final(self).at@ == old(bits)@.peek(old(self).table@.log)
                &&& final(bits)@ == old(bits)@.skip(old(self).table@.log)
            },
    {
        if self.table.accuracy_log == 0 {
            return Err(DecodeError::FseTableUninitialized);
        }
        proof {
            lemma2_to64();
            bits::lemma_pow2_monotone(self.table@.log, 15);
        }
        let new_state = bits.get_bits(self.table.accuracy_log);
        self.state = self.table.decode[new_state as usize];
        self.at = Ghost(new_state as nat);
        Ok(())
    }

    /// Goes to the next cell.
    pub fn update_state(&mut self, bits: &mut BitReaderReversed<'_>)
        requires
            old(self).wf(),
            old(bits).wf(),
            old(bits)@.debt <= 0x1000_0000,
        ensures
            final(self).wf(),
            final(self).table == old(self).table,
            final(bits).wf(),
            final(self).at@ == old(self).table@.step(old(self).at@, old(bits)@),
            final(bits)@ == old(bits)@.skip(old(self).table@.next(old(self).at@).bits),
    {
        proof {
            lemma_tab_cell(self.table@, self.at@);
        }
        let ghost here = self.at@;
        let num_bits = self.state.num_bits;
        let add = bits.get_bits(num_bits);
        let base_line = self.state.base_line;
        let new_state = base_line + add as u32;
        self.state = self.table.decode[new_state as usize];
        self.at = Ghost(new_state as nat);
    }
}

// ---------------------------------------------------------------------------
// Public entry point
// ---------------------------------------------------------------------------

/// Parses the normalized probabilities of a table description.
/// Returns (accuracy log, probabilities, bytes consumed).
pub fn parse_fse_header(source: &[u8], max_log: u8) -> (r: Result<
    (u8, Vec<i32>, usize),
    DecodeError,
>)
    requires
        8 * source@.len() <= usize::MAX,
    ensures
        match r {
            Ok((log, probs, bytes)) => fse_header(source@, max_log as nat, 255) == Ok::<
                FseHeader,
                DecodeError,
            >(FseHeader { log: log as nat, probs: probs_of(probs@), bytes: bytes as nat }),
            Err(e) => fse_header(source@, max_log as nat, 255) == Err::<FseHeader, DecodeError>(e),
        },
{
    let mut table = FSETable::new(255);
    match table.read_probabilities(source, max_log) {
        Err(e) => Err(e),
        Ok(bytes) => Ok((table.accuracy_log, table.symbol_probabilities, bytes)),
    }
}

} // verus!
