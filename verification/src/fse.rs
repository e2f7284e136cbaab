//! FSE (finite state entropy) encoder.
use crate::bits;
use crate::bits::{high_bit_u64, low_bits, pow2_u32, shift_right};
use crate::bitreader;
use crate::bitreader::RevBits;
use crate::fse_decode;
use crate::fse_decode::{spread_table, FseTab};
use crate::bitstream::BackwardBitWriter;
use crate::constants;
use crate::constants::{LL_BASE, LL_BITS, ML_BASE, ML_BITS};
use crate::error::DecodeError;
use crate::fse_table;
use crate::sequences;
use crate::sequences::{CodeTab, CodeTabs, Sequence};
use vstd::arithmetic::div_mod::*;
use vstd::arithmetic::mul::*;
use vstd::arithmetic::power2::*;
use vstd::prelude::*;

verus! {

// ---------------------------------------------------------------------------
// Model
// ---------------------------------------------------------------------------

/// `u` is the cell that holds the occurrence `j` of symbol `s`.
pub open spec fn is_cell_of(t: FseTab, s: int, j: nat, u: nat) -> bool {
    &&& u < pow2(t.log)
    &&& t.symbol(u) == s
    &&& fse_table::occurrences(fse_table::spread(t.probs, t.log), s, u) == j
}

/// The cell that holds the occurrence `j` of symbol `s`.
pub open spec fn cell_of(t: FseTab, s: int, j: nat) -> nat {
    choose|u: nat| is_cell_of(t, s, j, u)
}

/// Symbol `s` has cells.
pub open spec fn has_cells(t: FseTab, s: int) -> bool {
    &&& 0 <= s < t.probs.len()
    &&& t.probs[s] != 0
}

pub proof fn lemma_cell_of(t: FseTab, s: int, j: nat)
    requires
        fse_table::is_distribution(t.probs, t.log),
        0 <= s < t.probs.len(),
        j < fse_table::cells(t.probs[s]),
    ensures
        is_cell_of(t, s, j, cell_of(t, s, j)),
{
    let sp = fse_table::spread(t.probs, t.log);
    fse_table::lemma_spread_counts(t.probs, t.log, s);
    let u = fse_table::lemma_occurrence_exists(sp, s, pow2(t.log), j);
    assert(is_cell_of(t, s, j, u as nat));
}

pub proof fn lemma_cell_of_unique(t: FseTab, s: int, j: nat, u: nat)
    requires
        fse_table::is_distribution(t.probs, t.log),
        is_cell_of(t, s, j, u),
    ensures
        u == cell_of(t, s, j),
{
    let sp = fse_table::spread(t.probs, t.log);
    let v = cell_of(t, s, j);
    assert(is_cell_of(t, s, j, v));
    if u < v {
        fse_table::lemma_occurrences_monotone(sp, s, u, v);
    } else if v < u {
        fse_table::lemma_occurrences_monotone(sp, s, v, u);
    }
}

/// The code `s` can be written with the table `t`.
pub open spec fn can_encode(t: CodeTab, s: int) -> bool {
    match t.rle {
        Some(c) => s == c,
        None => {
            &&& fse_table::is_distribution(t.tab.probs, t.tab.log)
            &&& has_cells(t.tab, s)
        },
    }
}

/// `p` is a cell of the table.
pub open spec fn is_cell(t: CodeTab, p: nat) -> bool {
    if t.rle is Some {
        p == 0
    } else {
        p < pow2(t.tab.log)
    }
}

/// The bits of a cell number.
pub open spec fn cell_bits(t: CodeTab) -> nat {
    if t.rle is Some {
        0
    } else {
        t.tab.log
    }
}

/// The cell that the last code `s` of a stream is written with.
pub open spec fn enc_init(t: CodeTab, s: int) -> nat {
    if t.rle is Some {
        0
    } else {
        cell_of(t.tab, s, 0)
    }
}

/// The bits that are written for the code `s` before cell `p`.
pub open spec fn enc_width(t: CodeTab, p: nat, s: int) -> nat {
    if t.rle is Some {
        0
    } else {
        fse_table::enc_bits(t.tab.log, fse_table::cells(t.tab.probs[s]), p)
    }
}

/// The cell that the code `s` before cell `p` is written with.
pub open spec fn enc_next(t: CodeTab, p: nat, s: int) -> nat {
    if t.rle is Some {
        0
    } else {
        cell_of(
            t.tab,
            s,
            fse_table::enc_cell(t.tab.log, fse_table::cells(t.tab.probs[s]), p),
        )
    }
}

/// The first cell stands for its code.
pub proof fn lemma_enc_init(t: CodeTab, s: int)
    requires
        can_encode(t, s),
    ensures
        is_cell(t, enc_init(t, s)),
        t.code(enc_init(t, s)) == s,
{
    if t.rle is None {
        lemma_cell_of(t.tab, s, 0);
    }
}

/// What the encoder does for a code, the decoder undoes: the new cell stands for the
/// code, and the bits written lead from it to the old cell.
pub proof fn lemma_enc_step(t: CodeTab, p: nat, s: int, b: Seq<bool>)
    requires
        can_encode(t, s),
        is_cell(t, p),
    ensures
        ({
            let q = enc_next(t, p, s);
            let w = enc_width(t, p, s);
            let r = RevBits { bits: b + bits::bits_of(p, w), debt: 0 };
            &&& is_cell(t, q)
            &&& t.code(q) == s
            &&& w <= cell_bits(t)
            &&& t.after_next(q, r) == (RevBits { bits: b, debt: 0 })
            &&& t.rle is None ==> t.next(q, r) == p
        }),
{
    let w = enc_width(t, p, s);
    bitreader::lemma_read_back(b, p, w);
    if t.rle is None {
        let n = fse_table::cells(t.tab.probs[s]);
        fse_table::lemma_before_monotone(t.tab.probs, (s + 1) as nat, t.tab.probs.len());
        fse_table::lemma_fse_step(t.tab.log, n, p);
        let j = fse_table::enc_cell(t.tab.log, n, p);
        lemma_cell_of(t.tab, s, j);
    } else {
        assert(b + bits::bits_of(p, 0) =~= b);
    }
}

// ---------------------------------------------------------------------------
// Tables
// ---------------------------------------------------------------------------

/// How the states of a symbol are found.
#[derive(Debug, Clone, Copy, PartialEq, Eq, Structural)]
pub struct SymbolTT {
    pub delta_find_state: i32,
    pub delta_nb_bits: u32,
}

impl Default for SymbolTT {
    fn default() -> (tt: SymbolTT)
        ensures
            tt == (SymbolTT { delta_find_state: 0, delta_nb_bits: 0 }),
    {
        SymbolTT { delta_find_state: 0, delta_nb_bits: 0 }
    }
}

/// What the encoder knows of a symbol with `n` of the `2^log` cells, where `before`
/// cells belong to lower symbols.
pub open spec fn symbol_transform(log: nat, n: nat, before: nat) -> SymbolTT {
    let size = pow2(log);
    let e = fse_table::ceil_log2(n);
    if n == 0 {
        SymbolTT { delta_find_state: 0, delta_nb_bits: ((log + 1) * 65536 - size) as u32 }
    } else if n == 1 {
        SymbolTT {
            delta_find_state: (before - 1) as i32,
            delta_nb_bits: (log * 65536 - size) as u32,
        }
    } else {
        SymbolTT {
            delta_find_state: (before - n) as i32,
            delta_nb_bits: ((log - e + 1) * 65536 - 2 * n * pow2((log - e) as nat)) as u32,
        }
    }
}

/// A compiled encoding table.
pub struct FseCTable {
    pub table_log: u32,
    pub state_table: Vec<u16>,
    pub symbol_tt: Vec<SymbolTT>,
    pub max_symbol: usize,
    pub tab: Ghost<CodeTab>,
}

pub open spec fn norm_probs(norm: Seq<i16>, max_symbol: int) -> Seq<int> {
    Seq::new((max_symbol + 1) as nat, |i: int| norm[i] as int)
}

impl FseCTable {
    /// The table encodes what the FSE table `t` decodes.
    pub open spec fn is_fse(&self, t: FseTab) -> bool {
        &&& fse_table::is_distribution(t.probs, t.log)
        &&& self.table_log == t.log
        &&& self.max_symbol + 1 == t.probs.len()
        &&& self.state_table@.len() == pow2(t.log)
        &&& self.symbol_tt@.len() == t.probs.len()
        &&& forall|s: int, j: nat|
            0 <= s < t.probs.len() && j < fse_table::cells(t.probs[s])
                ==> self.state_table@[slot(t.probs, s, j)] == pow2(t.log)
                + #[trigger] cell_of(t, s, j)
        &&& forall|s: int|
            0 <= s < t.probs.len() ==> #[trigger] self.symbol_tt@[s] == symbol_transform(
                t.log,
                fse_table::cells(t.probs[s]),
                fse_table::cells_before(t.probs, s as nat),
            )
    }

    /// The table writes the one code `c` in no bits.
    pub open spec fn is_rle(&self, c: int) -> bool {
        &&& self.table_log == 0
        &&& self.max_symbol == c
        &&& self.state_table@ == seq![0u16]
        &&& self.symbol_tt@.len() == c + 1
        &&& self.symbol_tt@[c] == (SymbolTT { delta_find_state: 0, delta_nb_bits: 0 })
    }

    /// The decoding table that the table belongs to.
    pub open spec fn view(&self) -> CodeTab {
        self.tab@
    }

    pub open spec fn wf(&self) -> bool {
        match self@.rle {
            Some(c) => self.is_rle(c as int),
            None => self.is_fse(self@.tab),
        }
    }

    /// `state` stands for a cell.
    pub open spec fn is_state(&self, state: int) -> bool {
        if self@.rle is Some {
            state == 0
        } else {
            pow2(self@.tab.log) <= state < 2 * pow2(self@.tab.log)
        }
    }

    /// The cell that `state` stands for.
    pub open spec fn cell(&self, state: int) -> nat {
        if self@.rle is Some {
            0
        } else {
            (state - pow2(self@.tab.log)) as nat
        }
    }
}

/// Where the state of the occurrence `j` of symbol `s` stands in a state table.
pub open spec fn slot(probs: Seq<int>, s: int, j: nat) -> int {
    (fse_table::cells_before(probs, s as nat) + j) as int
}

/// Different cells have different slots in a state table.
proof fn lemma_slots(probs: Seq<int>, s: nat, j: nat, s2: nat, j2: nat)
    requires
        s < s2 <= probs.len(),
        j < fse_table::cells(probs[s as int]),
    ensures
        fse_table::cells_before(probs, s) + j < fse_table::cells_before(probs, s2) + j2,
{
    fse_table::lemma_before_monotone(probs, s + 1, s2);
}

proof fn lemma_symbol_transform(log: nat, n: nat)
    requires
        2 <= n <= pow2(log),
        log <= 15,
    ensures
        1 <= fse_table::ceil_log2(n) <= log,
        bits::high_bit((n - 1) as nat) == fse_table::ceil_log2(n) - 1,
        2 * n * pow2((log - fse_table::ceil_log2(n)) as nat) == n * pow2(
            (log - fse_table::ceil_log2(n) + 1) as nat,
        ),
        n * pow2((log - fse_table::ceil_log2(n) + 1) as nat) <= 2 * pow2(log),
        n * pow2((log - fse_table::ceil_log2(n) + 1) as nat) >= pow2(log),
        pow2(log) <= 32768,
{
    let e = fse_table::ceil_log2(n);
    fse_table::lemma_ceil_log2(n);
    fse_table::lemma_ceil_log2_bound(n, log);
    lemma_pow2_adds(1, (log - e) as nat);
    lemma_pow2_adds(e, (log - e) as nat);
    lemma2_to64();
    bits::lemma_pow2_monotone(log, 15);
    let w = pow2((log - e) as nat);
    assert(2 * n * w == n * (2 * w)) by (nonlinear_arith);
    assert(n * (2 * w) <= 2 * (pow2(e) * w)) by (nonlinear_arith)
        requires
            n <= pow2(e),
    ;
    assert(n * (2 * w) >= pow2(e) * w) by (nonlinear_arith)
        requires
            pow2(e) <= 2 * n,
    ;
}

impl FseCTable {
    /// Fills the state table: the cells of each symbol, in order.
    fn build_state_table(table_symbol: &Vec<u8>, cumul: Vec<u16>, table_log: u32, Ghost(t): Ghost<
        FseTab,
    >) -> (state_table: Vec<u16>)
        requires
            fse_table::is_distribution(t.probs, t.log),
            t.log == table_log,
            table_symbol@.len() == pow2(t.log),
            forall|u: int|
                0 <= u < table_symbol@.len() ==> #[trigger] table_symbol@[u] == fse_table::spread(
                    t.probs,
                    t.log,
                )[u],
            cumul@.len() == t.probs.len(),
            forall|s: int|
                0 <= s < t.probs.len() ==> #[trigger] cumul@[s] == fse_table::cells_before(
                    t.probs,
                    s as nat,
                ),
        ensures
            state_table@.len() == pow2(t.log),
            forall|s: int, j: nat|
                0 <= s < t.probs.len() && j < fse_table::cells(t.probs[s])
                    ==> state_table@[slot(t.probs, s, j)] == pow2(t.log)
                    + #[trigger] cell_of(t, s, j),
    {
        let ghost sp = fse_table::spread(t.probs, t.log);
        proof {
            lemma2_to64();
            bits::lemma_pow2_monotone(t.log, 15);
        }
        let table_size = pow2_u32(table_log);
        let mut cumul = cumul;
        let mut state_table: Vec<u16> = vec![0u16; table_size as usize];
        let mut u: u32 = 0;
        while u < table_size
            invariant
                u <= table_size,
                table_size == pow2(t.log),
                table_size <= 32768,
                fse_table::is_distribution(t.probs, t.log),
                sp == fse_table::spread(t.probs, t.log),
                table_symbol@.len() == table_size,
                forall|u: int| 0 <= u < table_symbol@.len() ==> #[trigger] table_symbol@[u] == sp[u],
                state_table@.len() == table_size,
                cumul@.len() == t.probs.len(),
                forall|s: int|
                    0 <= s < t.probs.len() ==> #[trigger] cumul@[s] == fse_table::cells_before(
                        t.probs,
                        s as nat,
                    ) + fse_table::occurrences(sp, s, u as nat),
                forall|s: int, j: nat|
                    0 <= s < t.probs.len() && j < fse_table::occurrences(sp, s, u as nat)
                        ==> state_table@[slot(t.probs, s, j)]
                        == table_size + #[trigger] cell_of(t, s, j),
            decreases table_size - u,
        {
            proof {
                fse_table::lemma_spread_cell(t.probs, t.log, u as int);
            }
            let s = table_symbol[u as usize] as usize;
            let idx = cumul[s] as usize;
            let ghost j0 = fse_table::occurrences(sp, s as int, u as nat);
            proof {
                fse_table::lemma_spread_counts(t.probs, t.log, s as int);
                fse_table::lemma_occurrences_monotone(sp, s as int, u as nat, table_size as nat);
                fse_table::lemma_before_monotone(t.probs, (s + 1) as nat, t.probs.len());
                assert(is_cell_of(t, s as int, j0, u as nat));
                lemma_cell_of_unique(t, s as int, j0, u as nat);
            }
            let ghost before = state_table@;
            state_table[idx] = (table_size + u) as u16;
            cumul[s] = cumul[s] + 1;
            proof {
                assert forall|s2: int, j: nat|
                    0 <= s2 < t.probs.len() && j < fse_table::occurrences(
                        sp,
                        s2,
                        (u + 1) as nat,
                    ) implies state_table@[slot(t.probs, s2, j)]
                    == table_size + #[trigger] cell_of(t, s2, j) by {
                    fse_table::lemma_spread_counts(t.probs, t.log, s2);
                    fse_table::lemma_occurrences_monotone(
                        sp,
                        s2,
                        (u + 1) as nat,
                        table_size as nat,
                    );
                    fse_table::lemma_before_monotone(t.probs, (s2 + 1) as nat, t.probs.len());
                    if s2 < s {
                        lemma_slots(t.probs, s2 as nat, j, s as nat, j0);
                    } else if s2 > s {
                        lemma_slots(t.probs, s as nat, j0, s2 as nat, j);
                    }
                }
            }
            u = u + 1;
        }
        proof {
            assert forall|s: int, j: nat|
                0 <= s < t.probs.len() && j < fse_table::cells(
                    t.probs[s],
                ) implies state_table@[slot(t.probs, s, j)] == pow2(
                t.log,
            ) + #[trigger] cell_of(t, s, j) by {
                fse_table::lemma_spread_counts(t.probs, t.log, s);
            }
        }
        state_table
    }

    /// Builds an encoding table from normalized counts.
    pub fn build(norm: &[i16], max_symbol: usize, table_log: u32) -> (table: FseCTable)
        requires
            max_symbol < norm@.len(),
            fse_table::is_distribution(norm_probs(norm@, max_symbol as int), table_log as nat),
        ensures
            table.wf(),
            table@ == CodeTab::of(
                FseTab { log: table_log as nat, probs: norm_probs(norm@, max_symbol as int) },
                None,
            ),
    {
        let ghost probs = norm_probs(norm@, max_symbol as int);
        let ghost t = FseTab { log: table_log as nat, probs };
        proof {
            lemma2_to64();
            bits::lemma_pow2_monotone(t.log, 15);
        }
        let table_size = pow2_u32(table_log);
        let mut wide: Vec<i32> = Vec::new();
        let mut cumul: Vec<u16> = Vec::new();
        let mut symbol_tt: Vec<SymbolTT> = Vec::new();
        let mut total: u32 = 0;
        let mut s: usize = 0;
        while s <= max_symbol
            invariant
                s <= max_symbol + 1,
                max_symbol < norm@.len(),
                probs == norm_probs(norm@, max_symbol as int),
                t == (FseTab { log: table_log as nat, probs }),
                fse_table::is_distribution(probs, table_log as nat),
                table_size == pow2(t.log),
                table_size <= 32768,
                wide@.len() == s,
                cumul@.len() == s,
                symbol_tt@.len() == s,
                total == fse_table::cells_before(probs, s as nat),
                forall|i: int| 0 <= i < s ==> #[trigger] wide@[i] == probs[i],
                forall|i: int|
                    0 <= i < s ==> #[trigger] cumul@[i] == fse_table::cells_before(probs, i as nat),
                forall|i: int|
                    0 <= i < s ==> #[trigger] symbol_tt@[i] == symbol_transform(
                        t.log,
                        fse_table::cells(probs[i]),
                        fse_table::cells_before(probs, i as nat),
                    ),
            decreases max_symbol + 1 - s,
        {
            let p = norm[s];
            proof {
                assert(probs[s as int] == p as int);
                fse_table::lemma_before_monotone(probs, (s + 1) as nat, probs.len());
            }
            let n: u32 = if p == -1 {
                1
            } else {
                p as u32
            };
            wide.push(p as i32);
            cumul.push(total as u16);
            symbol_tt.push(Self::transform(table_log, n, total));
            total = total + n;
            s = s + 1;
        }
        assert(fse_decode::probs_of(wide@) =~= probs);
        let table_symbol = spread_table(&wide, table_log);
        let state_table = Self::build_state_table(&table_symbol, cumul, table_log, Ghost(t));
        FseCTable {
            table_log,
            state_table,
            symbol_tt,
            max_symbol,
            tab: Ghost(CodeTab::of(t, None)),
        }
    }

    fn transform(table_log: u32, n: u32, before: u32) -> (tt: SymbolTT)
        requires
            4 <= table_log <= 15,
            n <= pow2(table_log as nat),
            before <= pow2(table_log as nat),
        ensures
            tt == symbol_transform(table_log as nat, n as nat, before as nat),
    {
        proof {
            lemma2_to64();
            bits::lemma_pow2_monotone(table_log as nat, 15);
        }
        let table_size = pow2_u32(table_log);
        if n == 0 {
            SymbolTT { delta_find_state: 0, delta_nb_bits: (table_log + 1) * 65536 - table_size }
        } else if n == 1 {
            SymbolTT {
                delta_find_state: before as i32 - 1,
                delta_nb_bits: table_log * 65536 - table_size,
            }
        } else {
            proof {
                lemma_symbol_transform(table_log as nat, n as nat);
            }
            let max_bits_out = table_log - highest_bit(n - 1);
            let ghost e = fse_table::ceil_log2(n as nat);
            assert(max_bits_out == table_log - e + 1);
            proof {
                bits::lemma_pow2_monotone(max_bits_out as nat, 15);
            }
            let min_state_plus = n * pow2_u32(max_bits_out);
            SymbolTT {
                delta_find_state: before as i32 - n as i32,
                delta_nb_bits: max_bits_out * 65536 - min_state_plus,
            }
        }
    }

    /// A table for a single symbol, written in no bits.
    pub fn build_rle(symbol: u8) -> (table: FseCTable)
        ensures
            table.wf(),
            table@ == CodeTab::of(FseTab::empty(), Some(symbol)),
    {
        let max_symbol = symbol as usize;
        let state_table: Vec<u16> = vec![0u16; 1];
        let symbol_tt: Vec<SymbolTT> = vec![
            SymbolTT { delta_find_state: 0, delta_nb_bits: 0 };
            max_symbol + 1
        ];
        assert(state_table@ =~= seq![0u16]);
        FseCTable {
            table_log: 0,
            state_table,
            symbol_tt,
            max_symbol,
            tab: Ghost(CodeTab::of(FseTab::empty(), Some(symbol))),
        }
    }
}

impl FseCTable {
    /// The state that the last code of a stream is written with.
    pub fn init_state(&self, symbol: usize) -> (state: u32)
        requires
            self.wf(),
            can_encode(self@, symbol as int),
            self.table_log <= 14,
        ensures
            self.is_state(state as int),
            self.cell(state as int) == enc_init(self@, symbol as int),
    {
        let tt = self.symbol_tt[symbol];
        let ghost t = self@.tab;
        let ghost n = fse_table::cells(t.probs[symbol as int]);
        let ghost before = fse_table::cells_before(t.probs, symbol as nat);
        proof {
            lemma2_to64();
            lemma_enc_init(self@, symbol as int);
            if self@.rle is None {
                bits::lemma_pow2_monotone(t.log, 14);
                fse_table::lemma_before_monotone(t.probs, (symbol + 1) as nat, t.probs.len());
                if n >= 2 {
                    lemma_symbol_transform(t.log, n);
                } else {
                    assert(n == 1);
                }
            }
        }
        let nb_bits = ((tt.delta_nb_bits as u64 + 32768) / 65536) as u32;
        let ghost mbo = (t.log - fse_table::ceil_log2(n) + 1) as nat;
        proof {
            if self@.rle is None {
                if n >= 2 {
                    assert(nb_bits == mbo);
                    lemma_pow2_pos(mbo);
                    lemma_div_multiples_vanish(n as int, pow2(mbo) as int);
                    lemma_mul_is_commutative(n as int, pow2(mbo) as int);
                } else {
                    assert(nb_bits == t.log);
                    lemma_pow2_pos(t.log);
                    lemma_div_multiples_vanish(1, pow2(t.log) as int);
                }
                bits::lemma_pow2_monotone(nb_bits as nat, 15);
            }
        }
        let base_val = nb_bits * 65536 - tt.delta_nb_bits;
        let index = shift_right(base_val as u64, nb_bits) as i32 + tt.delta_find_state;
        proof {
            if self@.rle is None {
                assert(cell_of(t, symbol as int, 0) == enc_init(self@, symbol as int));
                assert(index == slot(t.probs, symbol as int, 0));
            }
        }
        self.state_table[index as usize] as u32
    }

    /// Writes the code `symbol` before a state: gives the bits to write, their number,
    /// and the new state.
    pub fn encode_symbol(&self, state: u32, symbol: usize) -> (r: (u32, u32, u32))
        requires
            self.wf(),
            can_encode(self@, symbol as int),
            self.is_state(state as int),
        ensures
            ({
                let p = self.cell(state as int);
                &&& r.0 == p % pow2(enc_width(self@, p, symbol as int))
                &&& r.1 == enc_width(self@, p, symbol as int)
                &&& self.cell(r.2 as int) == enc_next(self@, p, symbol as int)
            }),
            r.1 <= cell_bits(self@),
            self.is_state(r.2 as int),
    {
        let ghost p = self.cell(state as int);
        let tt = self.symbol_tt[symbol];
        let ghost t = self@.tab;
        let ghost n = fse_table::cells(t.probs[symbol as int]);
        let ghost before = fse_table::cells_before(t.probs, symbol as nat);
        let ghost w = enc_width(self@, p, symbol as int);
        proof {
            lemma2_to64();
            lemma_enc_step(self@, p, symbol as int, Seq::empty());
            if self@.rle is None {
                bits::lemma_pow2_monotone(t.log, 15);
                fse_table::lemma_before_monotone(t.probs, (symbol + 1) as nat, t.probs.len());
                fse_table::lemma_fse_step(t.log, n, p);
                if n >= 2 {
                    lemma_symbol_transform(t.log, n);
                } else {
                    assert(n == 1);
                    assert(fse_table::ceil_log2(n) == 0);
                }
            }
        }
        let nb_bits = (state + tt.delta_nb_bits) / 65536;
        assert(nb_bits == w);
        let bits_out = low_bits(state as u64, nb_bits) as u32;
        let index = shift_right(state as u64, nb_bits) as i32 + tt.delta_find_state;
        proof {
            if self@.rle is None {
                let j = fse_table::enc_cell(t.log, n, p);
                assert(cell_of(t, symbol as int, j) == enc_next(self@, p, symbol as int));
                assert(index == slot(t.probs, symbol as int, j));
                lemma_pow2_adds(w, (t.log - w) as nat);
                lemma_pow2_pos(w);
                lemma_mod_multiples_vanish(
                    pow2((t.log - w) as nat) as int,
                    p as int,
                    pow2(w) as int,
                );
                assert(bits_out == p % pow2(w));
            }
        }
        let new_state = self.state_table[index as usize] as u32;
        (bits_out, nb_bits, new_state)
    }
}

/// The position of the highest 1 bit; 0 for 0.
pub fn highest_bit(v: u32) -> (n: u32)
    ensures
        v == 0 ==> n == 0,
        v > 0 ==> n == bits::high_bit(v as nat),
{
    if v == 0 {
        return 0;
    }
    high_bit_u64(v as u64)
}

// ---------------------------------------------------------------------------
// Sequences
// ---------------------------------------------------------------------------

/// The codes of a sequence, and what its extra bits say.
pub struct SeqCode {
    pub llc: int,
    pub mlc: int,
    pub ofc: int,
    pub llx: nat,
    pub mlx: nat,
    pub ofx: nat,
}

impl SeqCode {
    /// The extra bits fit.
    pub open spec fn wf(self) -> bool {
        &&& 0 <= self.llc <= 35
        &&& 0 <= self.mlc <= 52
        &&& 0 <= self.ofc <= 31
        &&& self.llx < pow2(LL_BITS@[self.llc] as nat)
        &&& self.mlx < pow2(ML_BITS@[self.mlc] as nat)
        &&& self.ofx < pow2(self.ofc as nat)
    }

    /// The extra bits in the order in which they are written.
    pub open spec fn extra_bits(self) -> Seq<bool> {
        bits::bits_of(self.llx, LL_BITS@[self.llc] as nat) + bits::bits_of(
            self.mlx,
            ML_BITS@[self.mlc] as nat,
        ) + bits::bits_of(self.ofx, self.ofc as nat)
    }

    /// The sequence.
    pub open spec fn sequence(self) -> Sequence {
        Sequence {
            ll: (LL_BASE@[self.llc] + self.llx) as u32,
            ml: (ML_BASE@[self.mlc] + self.mlx) as u32,
            of: (pow2(self.ofc as nat) + self.ofx) as u32,
        }
    }

    pub open spec fn encodable(self, t: CodeTabs) -> bool {
        &&& self.wf()
        &&& can_encode(t.ll, self.llc)
        &&& can_encode(t.ml, self.mlc)
        &&& can_encode(t.of, self.ofc)
    }
}

/// What is written, and the three cells.
pub struct EncRun {
    pub bits: Seq<bool>,
    pub ll: nat,
    pub of: nat,
    pub ml: nat,
}

/// Where the encoder stands once the sequences from the `n`th to the last are written.
pub open spec fn enc_run(t: CodeTabs, seqs: Seq<SeqCode>, n: nat) -> EncRun
    decreases seqs.len() - n,
{
    let q = seqs[n as int];
    if n + 1 >= seqs.len() {
        EncRun {
            bits: q.extra_bits(),
            ll: enc_init(t.ll, q.llc),
            of: enc_init(t.of, q.ofc),
            ml: enc_init(t.ml, q.mlc),
        }
    } else {
        let e = enc_run(t, seqs, n + 1);
        EncRun {
            bits: e.bits + bits::bits_of(e.of, enc_width(t.of, e.of, q.ofc)) + bits::bits_of(
                e.ml,
                enc_width(t.ml, e.ml, q.mlc),
            ) + bits::bits_of(e.ll, enc_width(t.ll, e.ll, q.llc)) + q.extra_bits(),
            ll: enc_next(t.ll, e.ll, q.llc),
            of: enc_next(t.of, e.of, q.ofc),
            ml: enc_next(t.ml, e.ml, q.mlc),
        }
    }
}

/// The bits of a sequence stream.
pub open spec fn stream_bits(t: CodeTabs, seqs: Seq<SeqCode>) -> Seq<bool> {
    let e = enc_run(t, seqs, 0);
    e.bits + bits::bits_of(e.ml, cell_bits(t.ml)) + bits::bits_of(e.of, cell_bits(t.of))
        + bits::bits_of(e.ll, cell_bits(t.ll))
}

/// All sequences can be written.
pub open spec fn all_encodable(t: CodeTabs, seqs: Seq<SeqCode>) -> bool {
    forall|i: int| 0 <= i < seqs.len() ==> (#[trigger] seqs[i]).encodable(t)
}

/// How many bits sequences take at most, with tables of at most `2^log` cells.
proof fn lemma_enc_run_len(t: CodeTabs, seqs: Seq<SeqCode>, n: nat, log: nat)
    requires
        all_encodable(t, seqs),
        n < seqs.len(),
        cell_bits(t.ll) <= log,
        cell_bits(t.of) <= log,
        cell_bits(t.ml) <= log,
    ensures
        enc_run(t, seqs, n).bits.len() <= (3 * log + 63) * (seqs.len() - n),
    decreases seqs.len() - n,
{
    let q = seqs[n as int];
    let w = 3 * log + 63;
    let left = (seqs.len() - n) as nat;
    assert(q.encodable(t));
    constants::lemma_ll_bounds(q.llc);
    constants::lemma_ml_bounds(q.mlc);
    if n + 1 >= seqs.len() {
        assert(w * left == w) by (nonlinear_arith)
            requires
                left == 1,
        ;
    } else {
        let e = enc_run(t, seqs, n + 1);
        lemma_enc_run_len(t, seqs, n + 1, log);
        lemma_enc_run_cells(t, seqs, n + 1);
        lemma_enc_step(t.ll, e.ll, q.llc, Seq::empty());
        lemma_enc_step(t.of, e.of, q.ofc, Seq::empty());
        lemma_enc_step(t.ml, e.ml, q.mlc, Seq::empty());
        assert(w * left == w + w * (left - 1)) by (nonlinear_arith);
    }
}

/// How many bits a sequence stream has at most, with tables of at most `2^log` cells.
pub proof fn lemma_stream_len(t: CodeTabs, seqs: Seq<SeqCode>, log: nat)
    requires
        all_encodable(t, seqs),
        seqs.len() > 0,
        cell_bits(t.ll) <= log,
        cell_bits(t.of) <= log,
        cell_bits(t.ml) <= log,
    ensures
        stream_bits(t, seqs).len() <= (3 * log + 63) * seqs.len() + 3 * log,
{
    lemma_enc_run_len(t, seqs, 0, log);
}

pub proof fn lemma_enc_run_cells(t: CodeTabs, seqs: Seq<SeqCode>, n: nat)
    requires
        all_encodable(t, seqs),
        n < seqs.len(),
    ensures
        is_cell(t.ll, enc_run(t, seqs, n).ll),
        is_cell(t.of, enc_run(t, seqs, n).of),
        is_cell(t.ml, enc_run(t, seqs, n).ml),
        t.ll.code(enc_run(t, seqs, n).ll) == seqs[n as int].llc,
        t.of.code(enc_run(t, seqs, n).of) == seqs[n as int].ofc,
        t.ml.code(enc_run(t, seqs, n).ml) == seqs[n as int].mlc,
    decreases seqs.len() - n,
{
    let q = seqs[n as int];
    if n + 1 >= seqs.len() {
        lemma_enc_init(t.ll, q.llc);
        lemma_enc_init(t.of, q.ofc);
        lemma_enc_init(t.ml, q.mlc);
    } else {
        let e = enc_run(t, seqs, n + 1);
        lemma_enc_run_cells(t, seqs, n + 1);
        lemma_enc_step(t.ll, e.ll, q.llc, Seq::empty());
        lemma_enc_step(t.of, e.of, q.ofc, Seq::empty());
        lemma_enc_step(t.ml, e.ml, q.mlc, Seq::empty());
    }
}

/// The extra bits of a sequence are read back.
proof fn lemma_read_extra(q: SeqCode, b: Seq<bool>)
    requires
        q.wf(),
    ensures
        ({
            let r = RevBits { bits: b + q.extra_bits(), debt: 0 };
            &&& sequences::read_sequence(q.llc, q.mlc, q.ofc, r) == q.sequence()
            &&& r.skip(q.ofc as nat).skip(ML_BITS@[q.mlc] as nat).skip(LL_BITS@[q.llc] as nat) == (
            RevBits { bits: b, debt: 0 })
        }),
{
    let lb = bits::bits_of(q.llx, LL_BITS@[q.llc] as nat);
    let mb = bits::bits_of(q.mlx, ML_BITS@[q.mlc] as nat);
    let ob = bits::bits_of(q.ofx, q.ofc as nat);
    assert(b + q.extra_bits() =~= b + lb + mb + ob);
    bitreader::lemma_read_back(b + lb + mb, q.ofx, q.ofc as nat);
    bitreader::lemma_read_back(b + lb, q.mlx, ML_BITS@[q.mlc] as nat);
    bitreader::lemma_read_back(b, q.llx, LL_BITS@[q.llc] as nat);
    lemma_small_mod(q.ofx, pow2(q.ofc as nat));
    lemma_small_mod(q.mlx, pow2(ML_BITS@[q.mlc] as nat));
    lemma_small_mod(q.llx, pow2(LL_BITS@[q.llc] as nat));
}

/// The decoder at the encoder's cells.
#[verifier::opaque]
spec fn read_run(t: CodeTabs, seqs: Seq<SeqCode>, n: nat, acc: Seq<Sequence>) -> Result<
    Seq<Sequence>,
    DecodeError,
> {
    let e = enc_run(t, seqs, n);
    sequences::read_sequences(
        t,
        (seqs.len() - n) as nat,
        e.ll,
        e.of,
        e.ml,
        RevBits { bits: e.bits, debt: 0 },
        acc,
    )
}

proof fn lemma_read_last(t: CodeTabs, seqs: Seq<SeqCode>, n: nat, acc: Seq<Sequence>)
    requires
        all_encodable(t, seqs),
        n + 1 == seqs.len(),
    ensures
        read_run(t, seqs, n, acc) == Ok::<Seq<Sequence>, DecodeError>(
            acc.push(seqs[n as int].sequence()),
        ),
{
    reveal(read_run);
    let e = enc_run(t, seqs, n);
    let q = seqs[n as int];
    let acc1 = acc.push(q.sequence());
    lemma_enc_run_cells(t, seqs, n);
    assert(e.bits =~= Seq::<bool>::empty() + q.extra_bits());
    lemma_read_extra(q, Seq::empty());
    let r1 = RevBits { bits: Seq::empty(), debt: 0 };
    assert(sequences::read_sequences(t, 0, e.ll, e.of, e.ml, r1, acc1) == Ok::<
        Seq<Sequence>,
        DecodeError,
    >(acc1));
}

proof fn lemma_read_step(t: CodeTabs, seqs: Seq<SeqCode>, n: nat, acc: Seq<Sequence>)
    requires
        all_encodable(t, seqs),
        n + 1 < seqs.len(),
    ensures
        read_run(t, seqs, n, acc) == read_run(
            t,
            seqs,
            n + 1,
            acc.push(seqs[n as int].sequence()),
        ),
{
    reveal(read_run);
    let e = enc_run(t, seqs, n);
    let q = seqs[n as int];
    let count = (seqs.len() - n) as nat;
    let acc1 = acc.push(q.sequence());
    let p = enc_run(t, seqs, n + 1);
    lemma_enc_run_cells(t, seqs, n);
    lemma_enc_run_cells(t, seqs, n + 1);
    let ob = bits::bits_of(p.of, enc_width(t.of, p.of, q.ofc));
    let mb = bits::bits_of(p.ml, enc_width(t.ml, p.ml, q.mlc));
    let lb = bits::bits_of(p.ll, enc_width(t.ll, p.ll, q.llc));
    lemma_read_extra(q, p.bits + ob + mb + lb);
    let r = RevBits { bits: e.bits, debt: 0 };
    let r1 = RevBits { bits: p.bits + ob + mb + lb, debt: 0 };
    let r2 = RevBits { bits: p.bits + ob + mb, debt: 0 };
    let r3 = RevBits { bits: p.bits + ob, debt: 0 };
    let r4 = RevBits { bits: p.bits, debt: 0 };
    assert(t.ll.after_next(e.ll, r1) == r2) by {
        lemma_enc_step(t.ll, p.ll, q.llc, p.bits + ob + mb);
    }
    assert(t.ml.after_next(e.ml, r2) == r3) by {
        lemma_enc_step(t.ml, p.ml, q.mlc, p.bits + ob);
    }
    assert(t.of.after_next(e.of, r3) == r4) by {
        lemma_enc_step(t.of, p.of, q.ofc, p.bits);
    }
    let nl = t.ll.next(e.ll, r1);
    let nm = t.ml.next(e.ml, r2);
    let no = t.of.next(e.of, r3);
    assert(t.ll.rle is Some || nl == p.ll) by {
        lemma_enc_step(t.ll, p.ll, q.llc, p.bits + ob + mb);
    }
    assert(t.ml.rle is Some || nm == p.ml) by {
        lemma_enc_step(t.ml, p.ml, q.mlc, p.bits + ob);
    }
    assert(t.of.rle is Some || no == p.of) by {
        lemma_enc_step(t.of, p.of, q.ofc, p.bits);
    }
    sequences::lemma_read_sequences_step(
        t,
        count,
        (e.ll, e.of, e.ml),
        r,
        r1,
        r2,
        r3,
        r4,
        acc,
    );
    sequences::lemma_read_sequences_cells(
        t,
        (count - 1) as nat,
        (nl, no, nm),
        (p.ll, p.of, p.ml),
        r4,
        acc1,
    );
}

/// The decoder reads back, from the encoder's cells, the sequences from the `n`th on.
proof fn lemma_read_run(t: CodeTabs, seqs: Seq<SeqCode>, n: nat, acc: Seq<Sequence>)
    requires
        all_encodable(t, seqs),
        n < seqs.len(),
    ensures
        read_run(t, seqs, n, acc) == Ok::<Seq<Sequence>, DecodeError>(
            acc + Seq::new((seqs.len() - n) as nat, |i: int| seqs[n + i].sequence()),
        ),
    decreases seqs.len() - n,
{
    let count = (seqs.len() - n) as nat;
    let acc1 = acc.push(seqs[n as int].sequence());
    if count == 1 {
        lemma_read_last(t, seqs, n, acc);
        assert(acc1 =~= acc + Seq::new(count, |i: int| seqs[n + i].sequence()));
    } else {
        lemma_read_step(t, seqs, n, acc);
        lemma_read_run(t, seqs, n + 1, acc1);
        assert(acc1 + Seq::new((count - 1) as nat, |i: int| seqs[n + 1 + i].sequence()) =~= acc
            + Seq::new(count, |i: int| seqs[n + i].sequence()));
    }
}

proof fn lemma_read_cell(t: CodeTab, p: nat, b: Seq<bool>)
    requires
        is_cell(t, p),
    ensures
        ({
            let r = RevBits { bits: b + bits::bits_of(p, cell_bits(t)), debt: 0 };
            &&& t.first(r) == p
            &&& t.after_first(r) == (RevBits { bits: b, debt: 0 })
        }),
{
    bitreader::lemma_read_back(b, p, cell_bits(t));
    if t.rle is Some {
        assert(b + bits::bits_of(p, 0) =~= b);
    } else {
        lemma_small_mod(p, pow2(t.tab.log));
    }
}

/// Sequences that are written are read back.
pub proof fn lemma_sequences_round_trip(t: CodeTabs, seqs: Seq<SeqCode>)
    requires
        all_encodable(t, seqs),
        seqs.len() > 0,
    ensures
        sequences::stream_sequences(
            t,
            seqs.len(),
            RevBits { bits: stream_bits(t, seqs), debt: 0 },
        ) == Ok::<Seq<Sequence>, DecodeError>(
            Seq::new(seqs.len(), |i: int| seqs[i].sequence()),
        ),
{
    reveal(read_run);
    let e = enc_run(t, seqs, 0);
    let mb = bits::bits_of(e.ml, cell_bits(t.ml));
    let ob = bits::bits_of(e.of, cell_bits(t.of));
    lemma_enc_run_cells(t, seqs, 0);
    assert(seqs[0].encodable(t));
    lemma_read_cell(t.ll, e.ll, e.bits + mb + ob);
    lemma_read_cell(t.of, e.of, e.bits + mb);
    lemma_read_cell(t.ml, e.ml, e.bits);
    lemma_read_run(t, seqs, 0, Seq::empty());
    assert(Seq::<Sequence>::empty() + Seq::new(seqs.len(), |i: int| seqs[0 + i].sequence())
        =~= Seq::new(seqs.len(), |i: int| seqs[i].sequence()));
}

/// The sequences that the arguments of `encode_sequences` describe.
pub open spec fn seq_codes(
    ll_codes: Seq<u8>,
    off_codes: Seq<u8>,
    ml_codes: Seq<u8>,
    ll_values: Seq<u32>,
    ml_values: Seq<u32>,
    off_values: Seq<u32>,
) -> Seq<SeqCode> {
    Seq::new(
        ll_codes.len(),
        |i: int|
            SeqCode {
                llc: ll_codes[i] as int,
                mlc: ml_codes[i] as int,
                ofc: off_codes[i] as int,
                llx: ll_values[i] as nat,
                mlx: ml_values[i] as nat,
                ofx: off_values[i] as nat,
            },
    )
}

/// Adds the number of a cell.
pub fn add_cell(bw: &mut BackwardBitWriter, table: &FseCTable, state: u32)
    requires
        old(bw).wf(),
        old(bw).pending() < 8,
        table.wf(),
        table.is_state(state as int),
    ensures
        final(bw).wf(),
        final(bw).pending() < 8,
        final(bw).bits() == old(bw).bits() + bits::bits_of(
            table.cell(state as int),
            cell_bits(table@),
        ),
{
    proof {
        if table@.rle is None {
            let p = table.cell(state as int);
            let size = pow2(table@.tab.log);
            bits::lemma_bits_of_mod(state as nat, table@.tab.log);
            lemma_mod_multiples_vanish(1, p as int, size as int);
            lemma_small_mod(p, size);
        }
    }
    bw.add_bits(state as u64, table.table_log);
    bw.flush_bits();
}

/// Writes the bits that lead from the next cell to this one.
fn add_step(bw: &mut BackwardBitWriter, table: &FseCTable, state: u32, symbol: usize) -> (
    new_state: u32)
    requires
        old(bw).wf(),
        old(bw).pending() <= 36,
        table.wf(),
        table.table_log <= 14,
        table.is_state(state as int),
        can_encode(table@, symbol as int),
    ensures
        final(bw).wf(),
        final(bw).pending() <= old(bw).pending() + 14,
        table.is_state(new_state as int),
        table.cell(new_state as int) == enc_next(
            table@,
            table.cell(state as int),
            symbol as int,
        ),
        final(bw).bits() == old(bw).bits() + bits::bits_of(
            table.cell(state as int),
            enc_width(table@, table.cell(state as int), symbol as int),
        ),
{
    let (bits_out, nb, new_state) = table.encode_symbol(state, symbol);
    proof {
        bits::lemma_bits_of_mod(table.cell(state as int), nb as nat);
    }
    bw.add_bits(bits_out as u64, nb);
    new_state
}

/// Writes the extra bits of a sequence.
fn add_extra(
    bw: &mut BackwardBitWriter,
    ll_bits: u32,
    ll_value: u32,
    ml_bits: u32,
    ml_value: u32,
    of_bits: u32,
    of_value: u32,
)
    requires
        old(bw).wf(),
        old(bw).pending() < 8,
        ll_bits <= 16,
        ml_bits <= 16,
        of_bits <= 31,
    ensures
        final(bw).wf(),
        final(bw).pending() < 8,
        final(bw).bits() == old(bw).bits() + (bits::bits_of(ll_value as nat, ll_bits as nat)
            + bits::bits_of(ml_value as nat, ml_bits as nat) + bits::bits_of(
            of_value as nat,
            of_bits as nat,
        )),
{
    let ghost before = bw.bits();
    bw.add_bits(ll_value as u64, ll_bits);
    bw.add_bits(ml_value as u64, ml_bits);
    bw.flush_bits();
    bw.add_bits(of_value as u64, of_bits);
    bw.flush_bits();
    assert(bw.bits() =~= before + (bits::bits_of(ll_value as nat, ll_bits as nat)
        + bits::bits_of(ml_value as nat, ml_bits as nat) + bits::bits_of(
        of_value as nat,
        of_bits as nat,
    )));
}

/// Writes sequences, the last one first, as a backward stream.
pub fn encode_sequences(
    ll_table: &FseCTable,
    off_table: &FseCTable,
    ml_table: &FseCTable,
    ll_codes: &[u8],
    off_codes: &[u8],
    ml_codes: &[u8],
    ll_values: &[u32],
    ml_values: &[u32],
    off_values: &[u32],
) -> (bytes: Vec<u8>)
    requires
        ll_table.wf(),
        off_table.wf(),
        ml_table.wf(),
        ll_table.table_log <= 14,
        off_table.table_log <= 14,
        ml_table.table_log <= 14,
        off_codes@.len() == ll_codes@.len(),
        ml_codes@.len() == ll_codes@.len(),
        ll_values@.len() == ll_codes@.len(),
        ml_values@.len() == ll_codes@.len(),
        off_values@.len() == ll_codes@.len(),
        all_encodable(
            CodeTabs { ll: ll_table@, of: off_table@, ml: ml_table@ },
            seq_codes(ll_codes@, off_codes@, ml_codes@, ll_values@, ml_values@, off_values@),
        ),
    ensures
        ll_codes@.len() == 0 ==> bytes@ == Seq::<u8>::empty(),
        ll_codes@.len() > 0 ==> bytes@ == bits::backward_stream(
            stream_bits(
                CodeTabs { ll: ll_table@, of: off_table@, ml: ml_table@ },
                seq_codes(ll_codes@, off_codes@, ml_codes@, ll_values@, ml_values@, off_values@),
            ),
        ),
{
    let nb_seq = ll_codes.len();
    if nb_seq == 0 {
        return Vec::new();
    }
    let ghost t = CodeTabs { ll: ll_table@, of: off_table@, ml: ml_table@ };
    let ghost seqs = seq_codes(
        ll_codes@,
        off_codes@,
        ml_codes@,
        ll_values@,
        ml_values@,
        off_values@,
    );
    let mut bw = BackwardBitWriter::new();
    let last = nb_seq - 1;
    assert(seqs[last as int].encodable(t));
    proof {
        constants::lemma_ll_bounds(ll_codes@[last as int] as int);
        constants::lemma_ml_bounds(ml_codes@[last as int] as int);
    }
    let mut state_ll = ll_table.init_state(ll_codes[last] as usize);
    let mut state_off = off_table.init_state(off_codes[last] as usize);
    let mut state_ml = ml_table.init_state(ml_codes[last] as usize);
    add_extra(
        &mut bw,
        LL_BITS[ll_codes[last] as usize] as u32,
        ll_values[last],
        ML_BITS[ml_codes[last] as usize] as u32,
        ml_values[last],
        off_codes[last] as u32,
        off_values[last],
    );
    assert(bw.bits() =~= enc_run(t, seqs, last as nat).bits);
    let mut n: usize = last;
    while n > 0
        invariant
            n <= last,
            last + 1 == nb_seq,
            nb_seq == ll_codes@.len(),
            off_codes@.len() == ll_codes@.len(),
            ml_codes@.len() == ll_codes@.len(),
            ll_values@.len() == ll_codes@.len(),
            ml_values@.len() == ll_codes@.len(),
            off_values@.len() == ll_codes@.len(),
            ll_table.wf(),
            off_table.wf(),
            ml_table.wf(),
            ll_table.table_log <= 14,
            off_table.table_log <= 14,
            ml_table.table_log <= 14,
            t == (CodeTabs { ll: ll_table@, of: off_table@, ml: ml_table@ }),
            seqs == seq_codes(
                ll_codes@,
                off_codes@,
                ml_codes@,
                ll_values@,
                ml_values@,
                off_values@,
            ),
            all_encodable(t, seqs),
            bw.wf(),
            bw.pending() < 8,
            bw.bits() == enc_run(t, seqs, n as nat).bits,
            ll_table.is_state(state_ll as int),
            off_table.is_state(state_off as int),
            ml_table.is_state(state_ml as int),
            ll_table.cell(state_ll as int) == enc_run(t, seqs, n as nat).ll,
            off_table.cell(state_off as int) == enc_run(t, seqs, n as nat).of,
            ml_table.cell(state_ml as int) == enc_run(t, seqs, n as nat).ml,
        decreases n,
    {
        let ghost e = enc_run(t, seqs, n as nat);
        n = n - 1;
        let llc = ll_codes[n] as usize;
        let ofc = off_codes[n] as usize;
        let mlc = ml_codes[n] as usize;
        proof {
            assert(seqs[n as int].encodable(t));
            constants::lemma_ll_bounds(llc as int);
            constants::lemma_ml_bounds(mlc as int);
        }
        state_off = add_step(&mut bw, off_table, state_off, ofc);
        state_ml = add_step(&mut bw, ml_table, state_ml, mlc);
        state_ll = add_step(&mut bw, ll_table, state_ll, llc);
        bw.flush_bits();
        add_extra(
            &mut bw,
            LL_BITS[llc] as u32,
            ll_values[n],
            ML_BITS[mlc] as u32,
            ml_values[n],
            ofc as u32,
            off_values[n],
        );
    }
    add_cell(&mut bw, ml_table, state_ml);
    add_cell(&mut bw, off_table, state_off);
    add_cell(&mut bw, ll_table, state_ll);
    bw.finish()
}

} // verus!
