//! Encoding of sequences sections.
use crate::bitreader;
use crate::bits;
use crate::bits::{high_bit_u64, pow2_u32};
use crate::constants;
use crate::constants::{
    ll_code, ml_code, off_code, LL_BASE, LL_DEFAULT_NORM, LL_DEFAULT_NORM_LOG, LL_FSE_LOG,
    MAX_LL, MAX_ML, ML_BASE, ML_DEFAULT_NORM, ML_DEFAULT_NORM_LOG, ML_FSE_LOG, OFF_FSE_LOG,
    OF_DEFAULT_NORM, OF_DEFAULT_NORM_LOG, SEQ_MODE_FSE, SEQ_MODE_PREDEFINED, SEQ_MODE_RLE,
};
use crate::cost;
use crate::cost::{entropy_cost_bits, table_cost_bits};
use crate::error::{CodeKind, DecodeError};
use crate::fse;
use crate::fse::{encode_sequences, FseCTable, SeqCode};
use crate::fse_decode::FseTab;
use crate::fse_header;
use crate::fse_header::encode_fse_header;
use crate::fse_table;
use crate::normalize;
use crate::normalize::normalize_counts;
use crate::sequences;
use crate::sequences::{CodeTab, CodeTabs, ModeType, SeqHeader, Sequence};
use vstd::arithmetic::power2::*;
use vstd::prelude::*;

verus! {

// ---------------------------------------------------------------------------
// Table modes
// ---------------------------------------------------------------------------

/// How the codes of one kind are written.
pub enum TabMode {
    Predefined,
    Rle(u8),
    Fse { probs: Seq<int>, log: nat },
}

impl TabMode {
    pub open spec fn mode_type(self) -> ModeType {
        match self {
            TabMode::Predefined => ModeType::Predefined,
            TabMode::Rle(_) => ModeType::RLE,
            TabMode::Fse { .. } => ModeType::FSECompressed,
        }
    }

    /// The number of the mode.
    pub open spec fn tag(self) -> nat {
        match self {
            TabMode::Predefined => 0,
            TabMode::Rle(_) => 1,
            TabMode::Fse { .. } => 2,
        }
    }

    /// The table description.
    pub open spec fn description(self) -> Seq<u8> {
        match self {
            TabMode::Predefined => Seq::empty(),
            TabMode::Rle(c) => seq![c],
            TabMode::Fse { probs, log } => fse_header::header_bytes(probs, log),
        }
    }

    /// The code table.
    pub open spec fn tab(self, default: FseTab) -> CodeTab {
        match self {
            TabMode::Predefined => CodeTab::of(default, None),
            TabMode::Rle(c) => CodeTab::of(FseTab::empty(), Some(c)),
            TabMode::Fse { probs, log } => CodeTab::of(FseTab { log, probs }, None),
        }
    }

    /// The mode is one that a decoder takes.
    pub open spec fn is_valid(self, max_log: nat, max_code: nat) -> bool {
        match self {
            TabMode::Predefined => true,
            TabMode::Rle(c) => c <= max_code,
            TabMode::Fse { probs, log } => {
                &&& 5 <= log <= max_log
                &&& fse_table::is_distribution(probs, log)
                &&& probs.len() <= max_code + 1
                &&& probs[probs.len() - 1] != 0
            },
        }
    }
}

/// The largest of the first `n` codes.
pub open spec fn max_of(codes: Seq<u8>, n: nat) -> nat
    decreases n,
{
    if n == 0 {
        0
    } else {
        let m = max_of(codes, (n - 1) as nat);
        if codes[n - 1] > m {
            codes[n - 1] as nat
        } else {
            m
        }
    }
}

/// How often each code up to the largest one occurs.
pub open spec fn counts_of(codes: Seq<u8>) -> Seq<u32> {
    Seq::new(
        max_of(codes, codes.len()) + 1,
        |c: int| normalize::freq(codes, codes.len(), c) as u32,
    )
}

/// The size of a table made for `used` codes.
pub open spec fn custom_log(used: nat, max_log: nat) -> nat {
    let wanted = if bits::high_bit(used) + 1 < 5 {
        5
    } else {
        bits::high_bit(used) + 1
    };
    if wanted < max_log {
        wanted
    } else {
        max_log
    }
}

/// The predefined table has every code that occurs.
pub open spec fn fits_default(counts: Seq<u32>, max_default: nat, default_norm: Seq<i16>) -> bool {
    forall|c: int|
        0 <= c < counts.len() && #[trigger] counts[c] > 0 ==> c <= max_default && c
            < default_norm.len() && default_norm[c] != 0
}

/// The estimated bits of the codes with the predefined table.
pub open spec fn default_bits(counts: Seq<u32>, default_log: nat, default_norm: Seq<i16>) -> nat {
    cost::whole_bits(cost::table_cost(counts, default_norm, default_log, counts.len()))
        + default_log
}

/// The estimated bits of `n` codes with the table `probs`, and of its description.
pub open spec fn custom_bits(counts: Seq<u32>, n: nat, probs: Seq<int>, log: nat) -> nat {
    8 * fse_header::header_bytes(probs, log).len() + cost::whole_bits(
        cost::entropy_cost(counts, n, counts.len()) as int,
    ) + log + 8
}

/// The mode in which codes are written: a single code has no table; otherwise the
/// predefined table is taken unless a table made for the codes is estimated to take
/// fewer bits, or is needed.
#[verifier::opaque]
pub open spec fn seq_mode(
    codes: Seq<u8>,
    max_default: nat,
    default_log: nat,
    default_norm: Seq<i16>,
    max_log: nat,
) -> TabMode {
    let counts = counts_of(codes);
    let used = normalize::used_count(counts, counts.len());
    let log = custom_log(used, max_log);
    let probs = normalize::normalized(counts, pow2(log));
    if codes.len() == 0 {
        TabMode::Predefined
    } else if used == 1 {
        TabMode::Rle(codes[0])
    } else if fits_default(counts, max_default, default_norm) && default_bits(
        counts,
        default_log,
        default_norm,
    ) <= custom_bits(counts, codes.len(), probs, log) {
        TabMode::Predefined
    } else {
        TabMode::Fse { probs, log }
    }
}

/// Chosen mode for a table of codes.
pub enum SeqTableMode {
    Predefined,
    Rle(u8),
    Fse { norm: Vec<i16>, max_symbol: usize, table_log: u32, header_bytes: Vec<u8> },
}

impl SeqTableMode {
    pub open spec fn view(&self) -> TabMode {
        match *self {
            SeqTableMode::Predefined => TabMode::Predefined,
            SeqTableMode::Rle(c) => TabMode::Rle(c),
            SeqTableMode::Fse { norm, max_symbol, table_log, header_bytes } => TabMode::Fse {
                probs: normalize::as_probs(norm@),
                log: table_log as nat,
            },
        }
    }

    pub open spec fn wf(&self) -> bool {
        match *self {
            SeqTableMode::Fse { norm, max_symbol, table_log, header_bytes } => {
                &&& norm@.len() == max_symbol + 1
                &&& header_bytes@ == fse_header::header_bytes(
                    normalize::as_probs(norm@),
                    table_log as nat,
                )
            },
            _ => true,
        }
    }

    pub fn tag(&self) -> (t: u8)
        ensures
            t == self@.tag(),
    {
        match self {
            SeqTableMode::Predefined => SEQ_MODE_PREDEFINED,
            SeqTableMode::Rle(_) => SEQ_MODE_RLE,
            SeqTableMode::Fse { .. } => SEQ_MODE_FSE,
        }
    }
}

pub proof fn lemma_max_of(codes: Seq<u8>, n: nat)
    requires
        n <= codes.len(),
    ensures
        forall|i: int| 0 <= i < n ==> #[trigger] codes[i] <= max_of(codes, n),
        max_of(codes, n) <= 255,
        n > 0 ==> exists|i: int| 0 <= i < n && #[trigger] codes[i] == max_of(codes, n),
    decreases n,
{
    if n > 0 {
        lemma_max_of(codes, (n - 1) as nat);
        if codes[n - 1] > max_of(codes, (n - 1) as nat) {
            assert(codes[n - 1] == max_of(codes, n));
        } else if n == 1 {
            assert(codes[0] == max_of(codes, 1));
        } else {
            let i = choose|i: int|
                0 <= i < n - 1 && #[trigger] codes[i] == max_of(codes, (n - 1) as nat);
            assert(codes[i] == max_of(codes, n));
        }
    }
}

proof fn lemma_freq_member(codes: Seq<u8>, n: nat, i: int)
    requires
        0 <= i < n <= codes.len(),
    ensures
        normalize::freq(codes, n, codes[i] as int) > 0,
    decreases n,
{
    if i < n - 1 {
        lemma_freq_member(codes, (n - 1) as nat, i);
    }
}

proof fn lemma_freq_bound(codes: Seq<u8>, n: nat, c: int)
    ensures
        normalize::freq(codes, n, c) <= n,
    decreases n,
{
    if n > 0 {
        lemma_freq_bound(codes, (n - 1) as nat, c);
    }
}

/// The counts below `m` of the first `n` codes.
spec fn freq_sum(codes: Seq<u8>, n: nat, m: nat) -> nat
    decreases m,
{
    if m == 0 {
        0
    } else {
        freq_sum(codes, n, (m - 1) as nat) + normalize::freq(codes, n, m - 1)
    }
}

proof fn lemma_freq_sum(codes: Seq<u8>, n: nat, m: nat)
    requires
        n <= codes.len(),
    ensures
        freq_sum(codes, n, m) <= n,
    decreases n,
{
    if n > 0 {
        lemma_freq_sum(codes, (n - 1) as nat, m);
        lemma_freq_sum_step(codes, n, m);
    } else {
        lemma_freq_sum_zero(codes, m);
    }
}

proof fn lemma_freq_sum_zero(codes: Seq<u8>, m: nat)
    ensures
        freq_sum(codes, 0, m) == 0,
    decreases m,
{
    if m > 0 {
        lemma_freq_sum_zero(codes, (m - 1) as nat);
    }
}

proof fn lemma_freq_sum_step(codes: Seq<u8>, n: nat, m: nat)
    requires
        0 < n <= codes.len(),
    ensures
        freq_sum(codes, n, m) == freq_sum(codes, (n - 1) as nat, m) + (if codes[n - 1] < m {
            1nat
        } else {
            0
        }),
    decreases m,
{
    if m > 0 {
        lemma_freq_sum_step(codes, n, (m - 1) as nat);
    }
}

proof fn lemma_counts_sum(codes: Seq<u8>, m: nat)
    requires
        codes.len() <= u32::MAX,
        m <= counts_of(codes).len(),
    ensures
        normalize::count_sum(counts_of(codes), m) == freq_sum(codes, codes.len(), m),
    decreases m,
{
    if m > 0 {
        lemma_counts_sum(codes, (m - 1) as nat);
        lemma_freq_bound(codes, codes.len(), m - 1);
    }
}

/// Where only one count is not zero, every code is the same.
proof fn lemma_two_used(counts: Seq<u32>, n: nat, a: int, b: int)
    requires
        0 <= a < b < n <= counts.len(),
        counts[a] > 0,
        counts[b] > 0,
    ensures
        normalize::used_count(counts, n) >= 2,
    decreases n,
{
    if b < n - 1 {
        lemma_two_used(counts, (n - 1) as nat, a, b);
    } else {
        normalize::lemma_count_sum_monotone(counts, (a + 1) as nat, (n - 1) as nat);
    }
}

/// What is known of counted codes.
pub proof fn lemma_counts(codes: Seq<u8>)
    requires
        0 < codes.len() <= u32::MAX,
    ensures
        ({
            let counts = counts_of(codes);
            &&& 0 < counts.len() <= 256
            &&& counts[counts.len() - 1] > 0
            &&& normalize::count_sum(counts, counts.len()) <= codes.len()
            &&& normalize::count_sum(counts, counts.len()) > 0
            &&& normalize::used_count(counts, counts.len()) >= 1
            &&& normalize::used_count(counts, counts.len()) <= counts.len()
            &&& forall|i: int| 0 <= i < codes.len() ==> #[trigger] codes[i] < counts.len()
            &&& forall|i: int| 0 <= i < codes.len() ==> counts[#[trigger] codes[i] as int] > 0
            &&& normalize::used_count(counts, counts.len()) == 1 ==> forall|i: int|
                0 <= i < codes.len() ==> #[trigger] codes[i] == codes[0]
        }),
{
    let counts = counts_of(codes);
    let n = counts.len();
    lemma_max_of(codes, codes.len());
    assert forall|i: int| 0 <= i < codes.len() implies counts[#[trigger] codes[i] as int] > 0 by {
        lemma_freq_member(codes, codes.len(), i);
        lemma_freq_bound(codes, codes.len(), codes[i] as int);
    }
    let top = choose|i: int|
        0 <= i < codes.len() && #[trigger] codes[i] == max_of(codes, codes.len());
    assert(counts[codes[top] as int] > 0);
    lemma_counts_sum(codes, n);
    lemma_freq_sum(codes, codes.len(), n);
    normalize::lemma_used_bound(counts, n);
    if normalize::used_count(counts, n) == 1 {
        assert forall|i: int| 0 <= i < codes.len() implies #[trigger] codes[i] == codes[0] by {
            assert(counts[codes[i] as int] > 0);
            assert(counts[codes[0] as int] > 0);
            if codes[i] < codes[0] {
                lemma_two_used(counts, n, codes[i] as int, codes[0] as int);
            } else if codes[i] > codes[0] {
                lemma_two_used(counts, n, codes[0] as int, codes[i] as int);
            }
        }
    }
}

/// The counts add up to the number of codes.
pub proof fn lemma_counts_total(codes: Seq<u8>)
    requires
        codes.len() <= u32::MAX,
    ensures
        normalize::count_sum(counts_of(codes), counts_of(codes).len()) == codes.len(),
{
    let m = counts_of(codes).len();
    lemma_counts_sum(codes, m);
    lemma_max_of(codes, codes.len());
    lemma_freq_sum_all(codes, codes.len(), m);
}

proof fn lemma_freq_sum_all(codes: Seq<u8>, n: nat, m: nat)
    requires
        n <= codes.len(),
        forall|i: int| 0 <= i < n ==> #[trigger] codes[i] < m,
    ensures
        freq_sum(codes, n, m) == n,
    decreases n,
{
    if n > 0 {
        lemma_freq_sum_all(codes, (n - 1) as nat, m);
        lemma_freq_sum_step(codes, n, m);
        assert(codes[n - 1] < m);
    } else {
        lemma_freq_sum_zero(codes, m);
    }
}

/// Counts codes.
pub fn count_codes(codes: &[u8]) -> (counts: Vec<u32>)
    requires
        0 < codes@.len() <= u32::MAX,
    ensures
        counts@ == counts_of(codes@),
{
    let mut counts: Vec<u32> = vec![0u32; 256];
    let mut max_sym: u8 = 0;
    let mut i: usize = 0;
    while i < codes.len()
        invariant
            i <= codes@.len(),
            codes@.len() <= u32::MAX,
            counts@.len() == 256,
            max_sym == max_of(codes@, i as nat),
            forall|c: int|
                0 <= c < 256 ==> #[trigger] counts@[c] == normalize::freq(codes@, i as nat, c),
        decreases codes@.len() - i,
    {
        let c = codes[i];
        proof {
            lemma_freq_bound(codes@, i as nat, c as int);
        }
        counts[c as usize] = counts[c as usize] + 1;
        if c > max_sym {
            max_sym = c;
        }
        i = i + 1;
    }
    counts.truncate(max_sym as usize + 1);
    assert(counts@ =~= counts_of(codes@));
    counts
}

/// The number of counts that are not zero.
pub fn count_used(counts: &[u32]) -> (n: usize)
    ensures
        n == normalize::used_count(counts@, counts@.len()),
{
    let mut n: usize = 0;
    let mut i: usize = 0;
    while i < counts.len()
        invariant
            i <= counts@.len(),
            n <= i,
            n == normalize::used_count(counts@, i as nat),
        decreases counts@.len() - i,
    {
        if counts[i] > 0 {
            n = n + 1;
        }
        i = i + 1;
    }
    n
}

/// Whether the predefined table has every code that occurs.
fn has_default(counts: &[u32], max_default: usize, default_norm: &[i16]) -> (ok: bool)
    ensures
        ok == fits_default(counts@, max_default as nat, default_norm@),
{
    let mut i: usize = 0;
    while i < counts.len()
        invariant
            i <= counts@.len(),
            forall|c: int|
                0 <= c < i && #[trigger] counts@[c] > 0 ==> c <= max_default && c
                    < default_norm@.len() && default_norm@[c] != 0,
        decreases counts@.len() - i,
    {
        if counts[i] > 0 && (i > max_default || i >= default_norm.len() || default_norm[i] == 0) {
            assert(counts@[i as int] > 0);
            return false;
        }
        i = i + 1;
    }
    true
}

/// A table of this size has room for every code.
proof fn lemma_custom_log(used: nat, max_log: nat)
    requires
        1 <= used <= pow2(max_log),
        used <= 256,
        5 <= max_log,
    ensures
        5 <= custom_log(used, max_log) <= max_log,
        custom_log(used, max_log) <= 9,
        used <= pow2(custom_log(used, max_log)),
{
    let h = bits::high_bit(used);
    bits::lemma_high_bit(used);
    lemma2_to64();
    let log = custom_log(used, max_log);
    if h > 8 {
        bits::lemma_pow2_monotone(9, h);
    }
    if log < max_log {
        if h + 1 < 5 {
            bits::lemma_pow2_monotone(h + 1, 5);
        }
    }
}

/// There are no more codes than numbers below a bound of them.
proof fn lemma_few_codes(codes: Seq<u8>, bound: nat)
    requires
        codes.len() <= u32::MAX,
        bound > 0,
        forall|i: int| 0 <= i < codes.len() ==> #[trigger] codes[i] < bound,
    ensures
        normalize::used_count(counts_of(codes), counts_of(codes).len()) <= bound,
{
    let counts = counts_of(codes);
    lemma_max_of(codes, codes.len());
    if codes.len() > 0 {
        lemma_counts(codes);
        let top = choose|i: int|
            0 <= i < codes.len() && #[trigger] codes[i] == max_of(codes, codes.len());
        assert(codes[top] < bound);
    } else {
        normalize::lemma_used_bound(counts, counts.len());
    }
}

/// A table made for codes is a distribution that covers them.
proof fn lemma_custom_table(codes: Seq<u8>, max_log: nat)
    requires
        0 < codes.len() <= u32::MAX,
        5 <= max_log,
        normalize::used_count(counts_of(codes), counts_of(codes).len()) <= pow2(max_log),
    ensures
        ({
            let counts = counts_of(codes);
            let log = custom_log(normalize::used_count(counts, counts.len()), max_log);
            &&& 5 <= log <= max_log
            &&& log <= 9
            &&& normalize::used_count(counts, counts.len()) <= pow2(log)
            &&& fse_table::is_distribution(normalize::normalized(counts, pow2(log)), log)
            &&& normalize::covers(normalize::normalized(counts, pow2(log)), counts)
        }),
{
    let counts = counts_of(codes);
    lemma_counts(codes);
    let used = normalize::used_count(counts, counts.len());
    lemma_custom_log(used, max_log);
    normalize::lemma_normalized(counts, custom_log(used, max_log));
}

/// The chosen mode is one that a decoder takes, and has every code.
proof fn lemma_seq_mode(
    codes: Seq<u8>,
    max_default: nat,
    default_norm: Seq<i16>,
    max_log: nat,
    default: FseTab,
)
    requires
        0 < codes.len() <= u32::MAX,
        5 <= max_log <= 14,
        default.probs == fse::norm_probs(default_norm, max_default as int),
        fse_table::is_distribution(default.probs, default.log),
        normalize::used_count(counts_of(codes), counts_of(codes).len()) <= pow2(max_log),
    ensures
        ({
            let mode = seq_mode(codes, max_default, default.log, default_norm, max_log);
            &&& mode.is_valid(max_log, max_of(codes, codes.len()))
            &&& forall|i: int|
                0 <= i < codes.len() ==> fse::can_encode(
                    mode.tab(default),
                    #[trigger] codes[i] as int,
                )
        }),
{
    reveal(seq_mode);
    let counts = counts_of(codes);
    let used = normalize::used_count(counts, counts.len());
    let probs = normalize::normalized(counts, pow2(custom_log(used, max_log)));
    let mode = seq_mode(codes, max_default, default.log, default_norm, max_log);
    lemma_counts(codes);
    lemma_max_of(codes, codes.len());
    lemma_custom_table(codes, max_log);
    assert(counts[counts.len() - 1] > 0);
    assert(probs[counts.len() - 1] >= -1 && probs[counts.len() - 1] != 0);
    assert forall|i: int| 0 <= i < codes.len() implies fse::can_encode(
        mode.tab(default),
        #[trigger] codes[i] as int,
    ) by {
        let c = codes[i] as int;
        assert(counts[c] > 0);
        assert(probs[c] >= -1 && probs[c] != 0);
    }
}

/// Chooses the mode for codes.
pub fn choose_seq_mode(
    codes: &[u8],
    max_symbol_default: usize,
    default_log: u32,
    default_norm: &[i16],
    max_log: u32,
) -> (mode: SeqTableMode)
    requires
        codes@.len() <= u32::MAX,
        default_log < 64,
        forall|c: int| 0 <= c < default_norm@.len() ==> #[trigger] default_norm@[c] >= -1,
        normalize::used_count(counts_of(codes@), counts_of(codes@).len()) >= 2 ==> max_log >= 5
            && normalize::used_count(counts_of(codes@), counts_of(codes@).len()) <= pow2(
            max_log as nat,
        ),
    ensures
        mode.wf(),
        mode@ == seq_mode(
            codes@,
            max_symbol_default as nat,
            default_log as nat,
            default_norm@,
            max_log as nat,
        ),
{
    reveal(seq_mode);
    if codes.len() == 0 {
        return SeqTableMode::Predefined;
    }
    let counts = count_codes(codes);
    proof {
        lemma_counts(codes@);
        lemma_max_of(codes@, codes@.len());
    }
    let n_used = count_used(&counts);
    if n_used == 1 {
        return SeqTableMode::Rle(codes[0]);
    }
    proof {
        lemma_custom_table(codes@, max_log as nat);
    }
    let max_sym = counts.len() - 1;
    let predefined_ok = has_default(&counts, max_symbol_default, default_norm);
    let symbol_log = high_bit_u64(n_used as u64) + 1;
    let wanted = if symbol_log < 5 {
        5
    } else {
        symbol_log
    };
    let table_log = if wanted < max_log {
        wanted
    } else {
        max_log
    };
    assert(counts@.take(max_sym + 1) =~= counts@);
    let norm = normalize_counts(&counts, max_sym, table_log);
    assert(fse::norm_probs(norm@, max_sym as int) =~= normalize::as_probs(norm@));
    proof {
        let probs = normalize::as_probs(norm@);
        assert(counts@[max_sym as int] > 0);
        assert(probs[max_sym as int] >= -1 && probs[max_sym as int] != 0);
    }
    let header_bytes = encode_fse_header(&norm, max_sym, table_log);
    let custom = SeqTableMode::Fse { norm, max_symbol: max_sym, table_log, header_bytes };
    if predefined_ok {
        let predefined_bits = table_cost_bits(
            &counts,
            default_norm,
            default_log,
            counts.len(),
        ) + default_log as u64;
        let custom_total_bits = custom_cost(&custom, &counts, codes.len());
        if predefined_bits as u128 <= custom_total_bits {
            return SeqTableMode::Predefined;
        }
    }
    custom
}

/// The estimated bits with a table made for the codes.
fn custom_cost(mode: &SeqTableMode, counts: &[u32], n: usize) -> (r: u128)
    requires
        mode.wf(),
        mode is Fse,
        mode@->log <= 14,
        0 < n <= u32::MAX,
        normalize::count_sum(counts@, counts@.len()) <= u32::MAX,
    ensures
        r == custom_bits(counts@, n as nat, mode@->probs, mode@->log),
{
    match mode {
        SeqTableMode::Fse { norm, max_symbol, table_log, header_bytes } => {
            header_bytes.len() as u128 * 8 + entropy_cost_bits(
                counts,
                n as u32,
                counts.len(),
            ) as u128 + *table_log as u128 + 8
        },
        _ => 0,
    }
}

/// Appends the table description and builds the encoding table.
pub fn write_seq_table_and_build(
    out: &mut Vec<u8>,
    mode: &SeqTableMode,
    default_norm: &[i16],
    default_max_symbol: usize,
    default_log: u32,
) -> (table: FseCTable)
    requires
        mode.wf(),
        mode@.is_valid(14, 255),
        default_max_symbol < default_norm@.len(),
        fse_table::is_distribution(
            fse::norm_probs(default_norm@, default_max_symbol as int),
            default_log as nat,
        ),
        default_log <= 14,
    ensures
        final(out)@ == old(out)@ + mode@.description(),
        table.wf(),
        table.table_log <= 14,
        table@ == mode@.tab(
            FseTab {
                log: default_log as nat,
                probs: fse::norm_probs(default_norm@, default_max_symbol as int),
            },
        ),
{
    match mode {
        SeqTableMode::Predefined => {
            assert(out@ + Seq::<u8>::empty() =~= out@);
            FseCTable::build(default_norm, default_max_symbol, default_log)
        },
        SeqTableMode::Rle(symbol) => {
            out.push(*symbol);
            assert(out@ =~= old(out)@ + seq![*symbol]);
            FseCTable::build_rle(*symbol)
        },
        SeqTableMode::Fse { norm, max_symbol, table_log, header_bytes } => {
            out.extend_from_slice(header_bytes);
            assert(fse::norm_probs(norm@, *max_symbol as int) =~= normalize::as_probs(norm@));
            FseCTable::build(norm, *max_symbol, *table_log)
        },
    }
}

// ---------------------------------------------------------------------------
// Sections
// ---------------------------------------------------------------------------

proof fn lemma_ll_norm()
    ensures
        fse::norm_probs(LL_DEFAULT_NORM@, 35) == sequences::ll_default().probs,
        sequences::ll_default().log == 6,
        fse_table::is_distribution(sequences::ll_default().probs, 6),
        forall|c: int| 0 <= c < LL_DEFAULT_NORM@.len() ==> #[trigger] LL_DEFAULT_NORM@[c] >= -1,
{
    reveal(sequences::ll_default);
    sequences::lemma_ll_default();
    assert(forall|c: int|
        0 <= c < 36 ==> #[trigger] LL_DEFAULT_NORM@[c]
            == sequences::LITERALS_LENGTH_DEFAULT_DISTRIBUTION@[c]);
    assert(fse::norm_probs(LL_DEFAULT_NORM@, 35) =~= sequences::ll_default().probs);
    assert forall|c: int| 0 <= c < LL_DEFAULT_NORM@.len() implies #[trigger] LL_DEFAULT_NORM@[c]
        >= -1 by {
        assert(sequences::ll_default().probs[c] >= -1);
    }
}

proof fn lemma_ml_norm()
    ensures
        fse::norm_probs(ML_DEFAULT_NORM@, 52) == sequences::ml_default().probs,
        sequences::ml_default().log == 6,
        fse_table::is_distribution(sequences::ml_default().probs, 6),
        forall|c: int| 0 <= c < ML_DEFAULT_NORM@.len() ==> #[trigger] ML_DEFAULT_NORM@[c] >= -1,
{
    reveal(sequences::ml_default);
    sequences::lemma_ml_default();
    assert(forall|c: int|
        0 <= c < 53 ==> #[trigger] ML_DEFAULT_NORM@[c]
            == sequences::MATCH_LENGTH_DEFAULT_DISTRIBUTION@[c]);
    assert(fse::norm_probs(ML_DEFAULT_NORM@, 52) =~= sequences::ml_default().probs);
    assert forall|c: int| 0 <= c < ML_DEFAULT_NORM@.len() implies #[trigger] ML_DEFAULT_NORM@[c]
        >= -1 by {
        assert(sequences::ml_default().probs[c] >= -1);
    }
}

proof fn lemma_of_norm()
    ensures
        fse::norm_probs(OF_DEFAULT_NORM@, 28) == sequences::of_default().probs,
        sequences::of_default().log == 5,
        fse_table::is_distribution(sequences::of_default().probs, 5),
        forall|c: int| 0 <= c < OF_DEFAULT_NORM@.len() ==> #[trigger] OF_DEFAULT_NORM@[c] >= -1,
{
    reveal(sequences::of_default);
    sequences::lemma_of_default();
    assert(forall|c: int|
        0 <= c < 29 ==> #[trigger] OF_DEFAULT_NORM@[c]
            == sequences::OFFSET_DEFAULT_DISTRIBUTION@[c]);
    assert(fse::norm_probs(OF_DEFAULT_NORM@, 28) =~= sequences::of_default().probs);
    assert forall|c: int| 0 <= c < OF_DEFAULT_NORM@.len() implies #[trigger] OF_DEFAULT_NORM@[c]
        >= -1 by {
        assert(sequences::of_default().probs[c] >= -1);
    }
}

/// A sequence with its offset value: 1 to 3 stand for the last offsets, any other for
/// the offset that is 3 less.
#[derive(Debug, Clone, Copy, PartialEq, Eq, Structural)]
pub struct EncodedSequence {
    pub ll: u32,
    pub of_value: u32,
    pub ml: u32,
}

impl EncodedSequence {
    /// The lengths and the offset value have codes.
    pub open spec fn wf(self) -> bool {
        &&& self.ll < 131072
        &&& 3 <= self.ml < 131075
        &&& self.of_value >= 1
    }

    /// The sequence as a decoder gives it.
    pub open spec fn sequence(self) -> Sequence {
        Sequence { ll: self.ll, ml: self.ml, of: self.of_value }
    }

    pub open spec fn llc(self) -> u8 {
        constants::ll_code_of(self.ll as nat) as u8
    }

    pub open spec fn mlc(self) -> u8 {
        constants::ml_code_of((self.ml - 3) as nat) as u8
    }

    pub open spec fn ofc(self) -> u8 {
        bits::high_bit(self.of_value as nat) as u8
    }

    /// The codes and the extra bits.
    pub open spec fn code(self) -> SeqCode {
        SeqCode {
            llc: self.llc() as int,
            mlc: self.mlc() as int,
            ofc: self.ofc() as int,
            llx: (self.ll - LL_BASE@[self.llc() as int]) as nat,
            mlx: (self.ml - ML_BASE@[self.mlc() as int]) as nat,
            ofx: (self.of_value - pow2(self.ofc() as nat)) as nat,
        }
    }
}

pub open spec fn all_wf(seqs: Seq<EncodedSequence>) -> bool {
    forall|i: int| 0 <= i < seqs.len() ==> (#[trigger] seqs[i]).wf()
}

/// Every sequence is told by its codes and extra bits.
proof fn lemma_code(e: EncodedSequence)
    requires
        e.wf(),
    ensures
        e.code().wf(),
        e.code().sequence() == e.sequence(),
        constants::ll_code_of(e.ll as nat) <= 35,
        constants::ml_code_of((e.ml - 3) as nat) <= 52,
        bits::high_bit(e.of_value as nat) <= 31,
        LL_BASE@[e.llc() as int] <= e.ll,
        ML_BASE@[e.mlc() as int] <= e.ml,
        pow2(e.ofc() as nat) <= e.of_value,
{
    constants::lemma_ll_code(e.ll as nat);
    constants::lemma_ml_code((e.ml - 3) as nat);
    let h = bits::high_bit(e.of_value as nat);
    bits::lemma_high_bit(e.of_value as nat);
    lemma_pow2_unfold(h + 1);
    lemma2_to64();
    if h >= 32 {
        bits::lemma_pow2_monotone(32, h);
    }
}

pub open spec fn ll_codes(seqs: Seq<EncodedSequence>) -> Seq<u8> {
    Seq::new(seqs.len(), |i: int| seqs[i].llc())
}

pub open spec fn ml_codes(seqs: Seq<EncodedSequence>) -> Seq<u8> {
    Seq::new(seqs.len(), |i: int| seqs[i].mlc())
}

pub open spec fn of_codes(seqs: Seq<EncodedSequence>) -> Seq<u8> {
    Seq::new(seqs.len(), |i: int| seqs[i].ofc())
}

pub open spec fn ll_mode(seqs: Seq<EncodedSequence>) -> TabMode {
    seq_mode(ll_codes(seqs), 35, 6, LL_DEFAULT_NORM@, 9)
}

pub open spec fn of_mode(seqs: Seq<EncodedSequence>) -> TabMode {
    seq_mode(of_codes(seqs), 28, 5, OF_DEFAULT_NORM@, 8)
}

pub open spec fn ml_mode(seqs: Seq<EncodedSequence>) -> TabMode {
    seq_mode(ml_codes(seqs), 52, 6, ML_DEFAULT_NORM@, 9)
}

/// The code tables that a section is written with.
pub open spec fn section_tabs(seqs: Seq<EncodedSequence>) -> CodeTabs {
    CodeTabs {
        ll: ll_mode(seqs).tab(sequences::ll_default()),
        of: of_mode(seqs).tab(sequences::of_default()),
        ml: ml_mode(seqs).tab(sequences::ml_default()),
    }
}

/// The number of sequences, in one to three bytes.
pub open spec fn count_bytes(n: nat) -> Seq<u8> {
    if n < 128 {
        seq![n as u8]
    } else if n < 0x7F00 {
        seq![(n / 256 + 128) as u8, (n % 256) as u8]
    } else {
        seq![255u8, ((n - 0x7F00) % 256) as u8, ((n - 0x7F00) / 256) as u8]
    }
}

/// The byte that names the modes of the three tables.
pub open spec fn modes_byte(ll: TabMode, of: TabMode, ml: TabMode) -> u8 {
    (64 * ll.tag() + 16 * of.tag() + 4 * ml.tag()) as u8
}

/// What follows the header of a section.
pub open spec fn section_body(seqs: Seq<EncodedSequence>) -> Seq<u8> {
    ll_mode(seqs).description() + (of_mode(seqs).description() + (ml_mode(seqs).description()
        + bits::backward_stream(
        fse::stream_bits(
            section_tabs(seqs),
            Seq::new(seqs.len(), |i: int| seqs[i].code()),
        ),
    )))
}

/// A sequences section.
pub open spec fn section_bytes(seqs: Seq<EncodedSequence>) -> Seq<u8> {
    if seqs.len() == 0 {
        count_bytes(0)
    } else {
        count_bytes(seqs.len()) + seq![modes_byte(ll_mode(seqs), of_mode(seqs), ml_mode(seqs))]
            + section_body(seqs)
    }
}

/// A decoder with the tables `t` of earlier blocks gets `seqs` from `bytes`, and keeps the
/// tables of the section.
pub open spec fn decodes_to(bytes: Seq<u8>, t: CodeTabs, seqs: Seq<EncodedSequence>) -> bool {
    &&& sequences::sequences_header(bytes) matches Ok(h)
    &&& h.num == seqs.len()
    &&& if seqs.len() == 0 {
        h.len == bytes.len()
    } else {
        sequences::section_sequences(t, h.modes, h.num, bytes.skip(h.len as int)) == Ok::<
            (Seq<Sequence>, CodeTabs),
            DecodeError,
        >((Seq::new(seqs.len(), |i: int| seqs[i].sequence()), section_tabs(seqs)))
    }
}

/// The three modes can be read and have every code.
spec fn modes_fit(seqs: Seq<EncodedSequence>) -> bool {
    let tabs = section_tabs(seqs);
    &&& ll_mode(seqs).is_valid(9, 35)
    &&& of_mode(seqs).is_valid(8, 31)
    &&& ml_mode(seqs).is_valid(9, 52)
    &&& fse::all_encodable(tabs, Seq::new(seqs.len(), |i: int| seqs[i].code()))
}

proof fn lemma_modes_fit(seqs: Seq<EncodedSequence>)
    requires
        0 < seqs.len() < 98048,
        all_wf(seqs),
    ensures
        modes_fit(seqs),
{
    let n = seqs.len();
    let tabs = section_tabs(seqs);
    lemma_section_codes(seqs);
    lemma_ll_norm();
    lemma_of_norm();
    lemma_ml_norm();
    lemma_few_codes(ll_codes(seqs), pow2(9));
    lemma_few_codes(of_codes(seqs), pow2(8));
    lemma_few_codes(ml_codes(seqs), pow2(9));
    lemma_seq_mode(ll_codes(seqs), 35, LL_DEFAULT_NORM@, 9, sequences::ll_default());
    lemma_seq_mode(of_codes(seqs), 28, OF_DEFAULT_NORM@, 8, sequences::of_default());
    lemma_seq_mode(ml_codes(seqs), 52, ML_DEFAULT_NORM@, 9, sequences::ml_default());
    assert forall|i: int| 0 <= i < n implies fse::can_encode(
        tabs.ll,
        (#[trigger] seqs[i]).llc() as int,
    ) && fse::can_encode(tabs.of, seqs[i].ofc() as int) && fse::can_encode(
        tabs.ml,
        seqs[i].mlc() as int,
    ) by {
        assert(fse::can_encode(tabs.ll, ll_codes(seqs)[i] as int));
        assert(fse::can_encode(tabs.of, of_codes(seqs)[i] as int));
        assert(fse::can_encode(tabs.ml, ml_codes(seqs)[i] as int));
    }
    lemma_all_encodable(seqs, tabs);
}

proof fn lemma_update_tab(
    old_tab: CodeTab,
    mode: TabMode,
    rest: Seq<u8>,
    default: FseTab,
    max_log: nat,
    max_code: nat,
    kind: CodeKind,
)
    requires
        mode.is_valid(max_log, max_code),
        rest.len() > 0,
    ensures
        sequences::update_tab(
            old_tab,
            mode.mode_type(),
            mode.description() + rest,
            default,
            max_log,
            max_code,
            kind,
        ) == Ok::<(CodeTab, nat), DecodeError>((mode.tab(default), mode.description().len())),
        (mode.description() + rest).skip(mode.description().len() as int) == rest,
{
    reveal(sequences::update_tab);
    let d = mode.description();
    assert((d + rest).skip(d.len() as int) =~= rest);
    match mode {
        TabMode::Predefined => {},
        TabMode::Rle(c) => {},
        TabMode::Fse { probs, log } => {
            fse_header::lemma_header_round_trip(rest, probs, log, max_log, max_code);
        },
    }
}

/// The header of a section is read back.
proof fn lemma_section_header(seqs: Seq<EncodedSequence>)
    requires
        0 < seqs.len() < 98048,
    ensures
        ({
            let m = modes_byte(ll_mode(seqs), of_mode(seqs), ml_mode(seqs));
            let len = count_bytes(seqs.len()).len() + 1;
            &&& sequences::sequences_header(section_bytes(seqs)) == Ok::<SeqHeader, DecodeError>(
                SeqHeader { num: seqs.len(), modes: Some(m), len },
            )
            &&& section_bytes(seqs).skip(len as int) == section_body(seqs)
        }),
{
    let n = seqs.len();
    let m = modes_byte(ll_mode(seqs), of_mode(seqs), ml_mode(seqs));
    let count = count_bytes(n);
    let bytes = section_bytes(seqs);
    assert(bytes.skip(count.len() as int + 1) =~= section_body(seqs));
    assert(bytes[0] == count[0]);
    assert(bytes[count.len() as int] == m);
    if n >= 128 {
        assert(bytes[1] == count[1]);
        if n >= 0x7F00 {
            assert(bytes[2] == count[2]);
        }
    }
}

/// Table descriptions are read back.
proof fn lemma_three_tabs(ll: TabMode, of: TabMode, ml: TabMode, stream: Seq<u8>, t: CodeTabs)
    requires
        ll.is_valid(9, 35),
        of.is_valid(8, 31),
        ml.is_valid(9, 52),
        stream.len() > 0,
    ensures
        ({
            let body = ll.description() + (of.description() + (ml.description() + stream));
            &&& sequences::update_tabs(t, Some(modes_byte(ll, of, ml)), body) matches Ok(
                (tabs, len),
            )
            &&& tabs == (CodeTabs {
                ll: ll.tab(sequences::ll_default()),
                of: of.tab(sequences::of_default()),
                ml: ml.tab(sequences::ml_default()),
            })
            &&& body.skip(len as int) == stream
        }),
{
    let m = modes_byte(ll, of, ml);
    let rest2 = ml.description() + stream;
    let rest1 = of.description() + rest2;
    let body = ll.description() + rest1;
    lemma_update_tab(
        t.ll,
        ll,
        rest1,
        sequences::ll_default(),
        9,
        35,
        CodeKind::LiteralLength,
    );
    lemma_update_tab(t.of, of, rest2, sequences::of_default(), 8, 31, CodeKind::Offset);
    lemma_update_tab(t.ml, ml, stream, sequences::ml_default(), 9, 52, CodeKind::MatchLength);
    let n1 = ll.description().len();
    let n2 = of.description().len();
    let n3 = ml.description().len();
    assert(body.skip((n1 + n2) as int) =~= rest2);
    assert(body.skip((n1 + n2 + n3) as int) =~= stream);
    assert(sequences::mode_of(m as int / 64) == ll.mode_type());
    assert(sequences::mode_of((m as int / 16) % 4) == of.mode_type());
    assert(sequences::mode_of((m as int / 4) % 4) == ml.mode_type());
}

/// The table descriptions of a section are read back.
proof fn lemma_section_tabs(seqs: Seq<EncodedSequence>, t: CodeTabs)
    requires
        modes_fit(seqs),
    ensures
        ({
            let m = modes_byte(ll_mode(seqs), of_mode(seqs), ml_mode(seqs));
            let codes = Seq::new(seqs.len(), |i: int| seqs[i].code());
            let stream = bits::backward_stream(fse::stream_bits(section_tabs(seqs), codes));
            let body = section_body(seqs);
            &&& sequences::update_tabs(t, Some(m), body) matches Ok((tabs, len))
            &&& tabs == section_tabs(seqs)
            &&& body.skip(len as int) == stream
        }),
{
    let codes = Seq::new(seqs.len(), |i: int| seqs[i].code());
    let stream_bits = fse::stream_bits(section_tabs(seqs), codes);
    bits::lemma_pack(stream_bits + seq![true]);
    lemma_three_tabs(
        ll_mode(seqs),
        of_mode(seqs),
        ml_mode(seqs),
        bits::backward_stream(stream_bits),
        t,
    );
}

/// The stream of a section is read back.
proof fn lemma_section_stream(seqs: Seq<EncodedSequence>)
    requires
        0 < seqs.len() < 98048,
        all_wf(seqs),
        modes_fit(seqs),
    ensures
        ({
            let codes = Seq::new(seqs.len(), |i: int| seqs[i].code());
            let stream = bits::backward_stream(fse::stream_bits(section_tabs(seqs), codes));
            &&& bitreader::stream_start(stream) matches Ok(r)
            &&& sequences::stream_sequences(section_tabs(seqs), seqs.len(), r) == Ok::<
                Seq<Sequence>,
                DecodeError,
            >(Seq::new(seqs.len(), |i: int| seqs[i].sequence()))
        }),
{
    let tabs = section_tabs(seqs);
    let codes = Seq::new(seqs.len(), |i: int| seqs[i].code());
    let n = seqs.len();
    bitreader::lemma_stream_start(fse::stream_bits(tabs, codes));
    fse::lemma_sequences_round_trip(tabs, codes);
    assert forall|i: int| 0 <= i < n implies codes[i].sequence()
        == #[trigger] seqs[i].sequence() by {
        lemma_code(seqs[i]);
    }
    assert(Seq::new(n, |i: int| codes[i].sequence()) =~= Seq::new(
        n,
        |i: int| seqs[i].sequence(),
    ));
}

/// How what follows the header of a section is decoded, step by step.
proof fn lemma_body_steps(
    t: CodeTabs,
    modes: Option<u8>,
    num: nat,
    body: Seq<u8>,
    tabs: CodeTabs,
    stream: Seq<u8>,
    out: Seq<Sequence>,
)
    requires
        sequences::update_tabs(t, modes, body) matches Ok((next, len)) && next == tabs
            && body.skip(len as int) == stream,
        bitreader::stream_start(stream) matches Ok(r) && sequences::stream_sequences(tabs, num, r)
            == Ok::<Seq<Sequence>, DecodeError>(out),
    ensures
        sequences::section_sequences(t, modes, num, body) == Ok::<
            (Seq<Sequence>, CodeTabs),
            DecodeError,
        >((out, tabs)),
{
    reveal(sequences::section_sequences);
}

/// The description of a mode that a decoder takes has at most 91 bytes.
proof fn lemma_description_len(mode: TabMode, max_code: nat)
    requires
        mode.is_valid(9, max_code),
        max_code <= 52,
    ensures
        mode.description().len() <= 91,
{
    match mode {
        TabMode::Fse { probs, log } => {
            fse_header::lemma_header_len(probs, log);
            assert((log + 4) * probs.len() <= 13 * 53) by (nonlinear_arith)
                requires
                    log <= 9,
                    probs.len() <= 53,
            ;
        },
        _ => {},
    }
}

/// A sequences section has at most twelve bytes for each sequence, and 300 more.
pub proof fn lemma_section_len(seqs: Seq<EncodedSequence>)
    requires
        seqs.len() < 98048,
        all_wf(seqs),
    ensures
        section_bytes(seqs).len() <= 12 * seqs.len() + 300,
        section_bytes(seqs).len() <= bitreader::MAX_REVERSED_SOURCE,
{
    if seqs.len() > 0 {
        let tabs = section_tabs(seqs);
        let codes = Seq::new(seqs.len(), |i: int| seqs[i].code());
        let stream_bits = fse::stream_bits(tabs, codes);
        lemma_modes_fit(seqs);
        lemma_ll_norm();
        lemma_of_norm();
        lemma_ml_norm();
        lemma_description_len(ll_mode(seqs), 35);
        lemma_description_len(of_mode(seqs), 31);
        lemma_description_len(ml_mode(seqs), 52);
        fse::lemma_stream_len(tabs, codes, 9);
        assert(stream_bits.len() <= 90 * seqs.len() + 27);
        bits::lemma_pack(stream_bits + seq![true]);
        assert(bits::backward_stream(stream_bits).len() <= 12 * seqs.len() + 5);
        assert(section_body(seqs).len() <= 12 * seqs.len() + 278);
    }
}

/// A sequences section is read back, whatever the tables of earlier blocks, and is not too
/// long for a decoder.
pub proof fn lemma_section_round_trip(seqs: Seq<EncodedSequence>, t: CodeTabs)
    requires
        seqs.len() < 98048,
        all_wf(seqs),
    ensures
        decodes_to(section_bytes(seqs), t, seqs),
        section_bytes(seqs).len() <= bitreader::MAX_REVERSED_SOURCE,
{
    lemma_section_len(seqs);
    if seqs.len() > 0 {
        let m = modes_byte(ll_mode(seqs), of_mode(seqs), ml_mode(seqs));
        let codes = Seq::new(seqs.len(), |i: int| seqs[i].code());
        lemma_modes_fit(seqs);
        lemma_section_header(seqs);
        lemma_section_tabs(seqs, t);
        lemma_section_stream(seqs);
        lemma_body_steps(
            t,
            Some(m),
            seqs.len(),
            section_body(seqs),
            section_tabs(seqs),
            bits::backward_stream(fse::stream_bits(section_tabs(seqs), codes)),
            Seq::new(seqs.len(), |i: int| seqs[i].sequence()),
        );
    }
}

/// The codes and the extra bits of sequences, column by column.
struct SeqColumns {
    ll_codes: Vec<u8>,
    ml_codes: Vec<u8>,
    off_codes: Vec<u8>,
    ll_values: Vec<u32>,
    ml_values: Vec<u32>,
    off_values: Vec<u32>,
}

impl SeqColumns {
    spec fn holds(&self, seqs: Seq<EncodedSequence>) -> bool {
        &&& self.ll_codes@ == ll_codes(seqs)
        &&& self.ml_codes@ == ml_codes(seqs)
        &&& self.off_codes@ == of_codes(seqs)
        &&& self.ll_values@.len() == seqs.len()
        &&& self.ml_values@.len() == seqs.len()
        &&& self.off_values@.len() == seqs.len()
        &&& fse::seq_codes(
            self.ll_codes@,
            self.off_codes@,
            self.ml_codes@,
            self.ll_values@,
            self.ml_values@,
            self.off_values@,
        ) == Seq::new(seqs.len(), |i: int| seqs[i].code())
    }

    fn new(sequences: &[EncodedSequence]) -> (columns: SeqColumns)
        requires
            all_wf(sequences@),
        ensures
            columns.holds(sequences@),
    {
        let nb_seq = sequences.len();
        let ghost seqs = sequences@;
        let mut ll_codes: Vec<u8> = Vec::new();
        let mut ml_codes: Vec<u8> = Vec::new();
        let mut off_codes: Vec<u8> = Vec::new();
        let mut ll_values: Vec<u32> = Vec::new();
        let mut ml_values: Vec<u32> = Vec::new();
        let mut off_values: Vec<u32> = Vec::new();
        let mut i: usize = 0;
        while i < nb_seq
            invariant
                i <= nb_seq,
                nb_seq == sequences@.len(),
                seqs == sequences@,
                all_wf(seqs),
                ll_codes@.len() == i,
                ml_codes@.len() == i,
                off_codes@.len() == i,
                ll_values@.len() == i,
                ml_values@.len() == i,
                off_values@.len() == i,
                forall|k: int| 0 <= k < i ==> #[trigger] ll_codes@[k] == seqs[k].llc(),
                forall|k: int| 0 <= k < i ==> #[trigger] ml_codes@[k] == seqs[k].mlc(),
                forall|k: int| 0 <= k < i ==> #[trigger] off_codes@[k] == seqs[k].ofc(),
                forall|k: int| 0 <= k < i ==> #[trigger] ll_values@[k] == seqs[k].code().llx,
                forall|k: int| 0 <= k < i ==> #[trigger] ml_values@[k] == seqs[k].code().mlx,
                forall|k: int| 0 <= k < i ==> #[trigger] off_values@[k] == seqs[k].code().ofx,
            decreases nb_seq - i,
        {
            let seq = sequences[i];
            proof {
                assert(seqs[i as int].wf());
                lemma_code(seq);
            }
            let llc = ll_code(seq.ll);
            let mlc = ml_code(seq.ml - 3);
            let ofc = off_code(seq.of_value);
            ll_codes.push(llc);
            ml_codes.push(mlc);
            off_codes.push(ofc);
            ll_values.push(seq.ll - LL_BASE[llc as usize]);
            ml_values.push(seq.ml - ML_BASE[mlc as usize]);
            off_values.push(seq.of_value - pow2_u32(ofc as u32));
            i = i + 1;
        }
        proof {
            assert(ll_codes@ =~= self::ll_codes(seqs));
            assert(ml_codes@ =~= self::ml_codes(seqs));
            assert(off_codes@ =~= of_codes(seqs));
            assert(fse::seq_codes(
                ll_codes@,
                off_codes@,
                ml_codes@,
                ll_values@,
                ml_values@,
                off_values@,
            ) =~= Seq::new(seqs.len(), |i: int| seqs[i].code()));
        }
        SeqColumns { ll_codes, ml_codes, off_codes, ll_values, ml_values, off_values }
    }
}

/// Appends the table description for the literal length codes and builds their table.
fn write_ll_table(out: &mut Vec<u8>, mode: &SeqTableMode) -> (table: FseCTable)
    requires
        mode.wf(),
        mode@.is_valid(9, 35),
    ensures
        final(out)@ == old(out)@ + mode@.description(),
        table.wf(),
        table.table_log <= 14,
        table@ == mode@.tab(sequences::ll_default()),
{
    proof {
        lemma_ll_norm();
    }
    write_seq_table_and_build(out, mode, &LL_DEFAULT_NORM, MAX_LL, LL_DEFAULT_NORM_LOG)
}

/// Appends the table description for the offset codes and builds their table.
fn write_of_table(out: &mut Vec<u8>, mode: &SeqTableMode) -> (table: FseCTable)
    requires
        mode.wf(),
        mode@.is_valid(8, 31),
    ensures
        final(out)@ == old(out)@ + mode@.description(),
        table.wf(),
        table.table_log <= 14,
        table@ == mode@.tab(sequences::of_default()),
{
    proof {
        lemma_of_norm();
    }
    write_seq_table_and_build(out, mode, &OF_DEFAULT_NORM, 28, OF_DEFAULT_NORM_LOG)
}

/// Appends the table description for the match length codes and builds their table.
fn write_ml_table(out: &mut Vec<u8>, mode: &SeqTableMode) -> (table: FseCTable)
    requires
        mode.wf(),
        mode@.is_valid(9, 52),
    ensures
        final(out)@ == old(out)@ + mode@.description(),
        table.wf(),
        table.table_log <= 14,
        table@ == mode@.tab(sequences::ml_default()),
{
    proof {
        lemma_ml_norm();
    }
    write_seq_table_and_build(out, mode, &ML_DEFAULT_NORM, MAX_ML, ML_DEFAULT_NORM_LOG)
}

/// Appends the modes, the table descriptions and the stream of a section.
fn append_section_body(
    out: &mut Vec<u8>,
    columns: &SeqColumns,
    Ghost(seqs): Ghost<Seq<EncodedSequence>>,
)
    requires
        0 < seqs.len() < 98048,
        all_wf(seqs),
        columns.holds(seqs),
    ensures
        final(out)@ == old(out)@ + (seq![
            modes_byte(ll_mode(seqs), of_mode(seqs), ml_mode(seqs)),
        ] + section_body(seqs)),
{
    proof {
        lemma_modes_fit(seqs);
        lemma_section_codes(seqs);
        lemma_ll_norm();
        lemma_of_norm();
        lemma_ml_norm();
        lemma_few_codes(ll_codes(seqs), pow2(9));
        lemma_few_codes(of_codes(seqs), pow2(8));
        lemma_few_codes(ml_codes(seqs), pow2(9));
    }
    let ll_mode = choose_seq_mode(
        &columns.ll_codes,
        MAX_LL,
        LL_DEFAULT_NORM_LOG,
        &LL_DEFAULT_NORM,
        LL_FSE_LOG,
    );
    let of_mode = choose_seq_mode(
        &columns.off_codes,
        28,
        OF_DEFAULT_NORM_LOG,
        &OF_DEFAULT_NORM,
        OFF_FSE_LOG,
    );
    let ml_mode = choose_seq_mode(
        &columns.ml_codes,
        MAX_ML,
        ML_DEFAULT_NORM_LOG,
        &ML_DEFAULT_NORM,
        ML_FSE_LOG,
    );
    out.push(64 * ll_mode.tag() + 16 * of_mode.tag() + 4 * ml_mode.tag());
    let ll_table = write_ll_table(out, &ll_mode);
    let of_table = write_of_table(out, &of_mode);
    let ml_table = write_ml_table(out, &ml_mode);
    assert(CodeTabs { ll: ll_table@, of: of_table@, ml: ml_table@ } == section_tabs(seqs));
    let bitstream = encode_sequences(
        &ll_table,
        &of_table,
        &ml_table,
        &columns.ll_codes,
        &columns.off_codes,
        &columns.ml_codes,
        &columns.ll_values,
        &columns.ml_values,
        &columns.off_values,
    );
    out.extend_from_slice(&bitstream);
    proof {
        lemma_join(
            old(out)@,
            modes_byte(ll_mode@, of_mode@, ml_mode@),
            ll_mode@.description(),
            of_mode@.description(),
            ml_mode@.description(),
            bitstream@,
        );
    }
}

proof fn lemma_join(a: Seq<u8>, m: u8, b: Seq<u8>, c: Seq<u8>, d: Seq<u8>, e: Seq<u8>)
    ensures
        a.push(m) + b + c + d + e == a + (seq![m] + (b + (c + (d + e)))),
{
    assert(a.push(m) + b + c + d + e =~= a + (seq![m] + (b + (c + (d + e)))));
}

/// Sequences whose codes have cells can be written.
proof fn lemma_all_encodable(seqs: Seq<EncodedSequence>, t: CodeTabs)
    requires
        all_wf(seqs),
        forall|i: int|
            0 <= i < seqs.len() ==> fse::can_encode(t.ll, (#[trigger] seqs[i]).llc() as int),
        forall|i: int|
            0 <= i < seqs.len() ==> fse::can_encode(t.of, (#[trigger] seqs[i]).ofc() as int),
        forall|i: int|
            0 <= i < seqs.len() ==> fse::can_encode(t.ml, (#[trigger] seqs[i]).mlc() as int),
    ensures
        fse::all_encodable(t, Seq::new(seqs.len(), |i: int| seqs[i].code())),
{
    let codes = Seq::new(seqs.len(), |i: int| seqs[i].code());
    assert forall|k: int| 0 <= k < codes.len() implies (#[trigger] codes[k]).encodable(t) by {
        assert(seqs[k].wf());
        lemma_code(seqs[k]);
    }
}

/// Appends the sequences section of a block.
pub fn encode_sequences_section(out: &mut Vec<u8>, sequences: &[EncodedSequence])
    requires
        sequences@.len() < 98048,
        all_wf(sequences@),
    ensures
        final(out)@ == old(out)@ + section_bytes(sequences@),
        section_bytes(sequences@).len() <= 12 * sequences@.len() + 300,
{
    proof {
        lemma_section_len(sequences@);
    }
    let nb_seq = sequences.len();
    let ghost seqs = sequences@;
    if nb_seq < 128 {
        out.push(nb_seq as u8);
    } else if nb_seq < 0x7F00 {
        out.push((nb_seq / 256 + 128) as u8);
        out.push((nb_seq % 256) as u8);
    } else {
        out.push(255);
        out.push(((nb_seq - 0x7F00) % 256) as u8);
        out.push(((nb_seq - 0x7F00) / 256) as u8);
    }
    assert(out@ =~= old(out)@ + count_bytes(nb_seq as nat));
    if nb_seq == 0 {
        return;
    }
    let columns = SeqColumns::new(sequences);
    append_section_body(out, &columns, Ghost(seqs));
    assert(out@ =~= old(out)@ + section_bytes(seqs));
}

/// The codes of a section are in their ranges.
proof fn lemma_section_codes(seqs: Seq<EncodedSequence>)
    requires
        all_wf(seqs),
        seqs.len() > 0,
    ensures
        forall|i: int| 0 <= i < seqs.len() ==> #[trigger] ll_codes(seqs)[i] < pow2(9),
        forall|i: int| 0 <= i < seqs.len() ==> #[trigger] ml_codes(seqs)[i] < pow2(9),
        forall|i: int| 0 <= i < seqs.len() ==> #[trigger] of_codes(seqs)[i] < pow2(8),
        max_of(ll_codes(seqs), seqs.len()) <= 35,
        max_of(ml_codes(seqs), seqs.len()) <= 52,
        max_of(of_codes(seqs), seqs.len()) <= 31,
{
    lemma2_to64();
    assert forall|i: int| 0 <= i < seqs.len() implies ll_codes(seqs)[i] <= 35 && ml_codes(seqs)[i]
        <= 52 && #[trigger] of_codes(seqs)[i] <= 31 by {
        lemma_code(seqs[i]);
    }
    assert forall|i: int| 0 <= i < seqs.len() implies #[trigger] ll_codes(seqs)[i] < pow2(9) by {
        assert(of_codes(seqs)[i] <= 31);
    }
    assert forall|i: int| 0 <= i < seqs.len() implies #[trigger] ml_codes(seqs)[i] < pow2(9) by {
        assert(of_codes(seqs)[i] <= 31);
    }
    lemma_max_of(ll_codes(seqs), seqs.len());
    lemma_max_of(ml_codes(seqs), seqs.len());
    lemma_max_of(of_codes(seqs), seqs.len());
    let a = choose|i: int|
        0 <= i < seqs.len() && #[trigger] ll_codes(seqs)[i] == max_of(ll_codes(seqs), seqs.len());
    assert(of_codes(seqs)[a] <= 31);
    let b = choose|i: int|
        0 <= i < seqs.len() && #[trigger] ml_codes(seqs)[i] == max_of(ml_codes(seqs), seqs.len());
    assert(of_codes(seqs)[b] <= 31);
    let c = choose|i: int|
        0 <= i < seqs.len() && #[trigger] of_codes(seqs)[i] == max_of(of_codes(seqs), seqs.len());
    assert(of_codes(seqs)[c] <= 31);
}

} // verus!
