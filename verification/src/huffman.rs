//! Huffman decoding of literals: weights, decoding tables and bit streams.
use crate::bitreader;
use crate::bitreader::{skip_padding, BitReaderReversed, RevBits};
use crate::bits;
use crate::bits::{pow2_u32, pow2_u64};
use crate::error::DecodeError;
use crate::fse_decode;
use crate::fse_decode::{highest_bit_set, FSEDecoder, FSETable, FseTab};
use crate::fse_table;
use vstd::arithmetic::div_mod::*;
use vstd::arithmetic::mul::*;
use vstd::arithmetic::power2::*;
use vstd::prelude::*;

verus! {

/// The longest code.
pub const MAX_MAX_NUM_BITS: u8 = 11;

// ---------------------------------------------------------------------------
// Weights
// ---------------------------------------------------------------------------

/// Two decoder states take turns giving weights, until one of them needs more
/// bits than are left; the other then gives the last weight.
pub open spec fn weights_loop(t: FseTab, s1: nat, s2: nat, r: RevBits, acc: Seq<u8>) -> Result<
    Seq<u8>,
    DecodeError,
>
    decreases 256 - acc.len(),
{
    let acc1 = acc.push(t.symbol(s1) as u8);
    let r1 = r.skip(t.next(s1).bits);
    let n1 = t.step(s1, r);
    if r1.remaining() < 0 {
        Ok(acc1.push(t.symbol(s2) as u8))
    } else {
        let acc2 = acc1.push(t.symbol(s2) as u8);
        let r2 = r1.skip(t.next(s2).bits);
        let n2 = t.step(s2, r1);
        if r2.remaining() < 0 {
            Ok(acc2.push(t.symbol(n1) as u8))
        } else if acc2.len() > 255 {
            Err(DecodeError::TooManyWeights { weights: acc2.len() as usize })
        } else {
            weights_loop(t, n1, n2, r2, acc2)
        }
    }
}

/// Weights in the FSE-compressed form: `stream` holds a table description and a
/// backward bit stream, `len` bytes together.
pub open spec fn fse_weights(stream: Seq<u8>, len: nat) -> Result<Seq<u8>, DecodeError> {
    if len > stream.len() {
        Err(DecodeError::NotEnoughWeightBytes { have: stream.len() as usize, need: len as usize })
    } else {
        match fse_decode::fse_header(stream, 6, 255) {
            Err(e) => Err(e),
            Ok(h) => if h.bytes > len {
                Err(
                    DecodeError::FseHeaderTooLong { used: h.bytes as usize, available: len as u8 },
                )
            } else {
                let t = FseTab { log: h.log, probs: h.probs };
                match bitreader::stream_start(stream.subrange(h.bytes as int, len as int)) {
                    Err(e) => Err(e),
                    Ok(r) => {
                        let r1 = r.skip(t.log);
                        weights_loop(t, r.peek(t.log), r1.peek(t.log), r1.skip(t.log), Seq::empty())
                    },
                }
            },
        }
    }
}

/// Weights in the direct form: four bits each, the first in the high half.
pub open spec fn packed_weights(stream: Seq<u8>, num: nat) -> Seq<u8> {
    Seq::new(
        num,
        |i: int|
            if i % 2 == 0 {
                (stream[i / 2] / 16) as u8
            } else {
                (stream[i / 2] % 16) as u8
            },
    )
}

/// The weights of a Huffman tree description, and the bytes that it takes.
pub open spec fn huf_weights(src: Seq<u8>) -> Result<(Seq<u8>, nat), DecodeError> {
    if src.len() == 0 {
        Err(DecodeError::HuffmanSourceEmpty)
    } else {
        let header = src[0] as nat;
        let stream = src.skip(1);
        if header < 128 {
            match fse_weights(stream, header) {
                Err(e) => Err(e),
                Ok(w) => Ok((w, 1 + header)),
            }
        } else {
            let num = (header - 127) as nat;
            let need = (num + 1) / 2;
            if stream.len() < need {
                Err(
                    DecodeError::NotEnoughPackedWeights {
                        have: stream.len() as usize,
                        need: need as usize,
                    },
                )
            } else {
                Ok((packed_weights(stream, num), 1 + need))
            }
        }
    }
}

// ---------------------------------------------------------------------------
// Code lengths
// ---------------------------------------------------------------------------

/// What a weight adds to the sum: `2^(w - 1)`, and nothing for weight 0.
pub open spec fn weight_value(w: int) -> nat {
    if w > 0 {
        pow2((w - 1) as nat)
    } else {
        0
    }
}

/// The sum of the weights from `i` on, added to `sum`.
pub open spec fn sum_weights(w: Seq<u8>, i: nat, sum: nat) -> Result<nat, DecodeError>
    decreases w.len() - i,
{
    if i >= w.len() {
        Ok(sum)
    } else if w[i as int] > 11 {
        Err(DecodeError::WeightTooLarge { weight: w[i as int] })
    } else {
        sum_weights(w, i + 1, sum + weight_value(w[i as int] as int))
    }
}

/// The mathematical view of a decoding table: the code length of each symbol, 0
/// for symbols without a code; `max_bits` is 0 before a table is built.
#[verifier::ext_equal]
pub struct HufTab {
    pub max_bits: nat,
    pub lens: Seq<int>,
}

/// The code length of a symbol of weight `w`.
pub open spec fn length_of(max_bits: nat, w: int) -> int {
    if w > 0 {
        max_bits + 1 - w
    } else {
        0
    }
}

/// The code lengths that weights stand for; the last symbol takes what the others
/// leave of the code space.
pub open spec fn huf_table(w: Seq<u8>) -> Result<HufTab, DecodeError> {
    match sum_weights(w, 0, 0) {
        Err(e) => Err(e),
        Ok(sum) => if sum == 0 {
            Err(DecodeError::MissingWeights)
        } else {
            let max = bits::high_bit(sum) + 1;
            let left = (pow2(max) - sum) as nat;
            if left != pow2(bits::high_bit(left)) {
                Err(DecodeError::LeftoverNotPowerOfTwo { leftover: left as u32 })
            } else if max > 11 {
                Err(DecodeError::MaxBitsTooLarge { bits: max as u8 })
            } else {
                Ok(
                    HufTab {
                        max_bits: max,
                        lens: Seq::new(w.len(), |i: int| length_of(max, w[i] as int)).push(
                            max - bits::high_bit(left),
                        ),
                    },
                )
            }
        },
    }
}

// ---------------------------------------------------------------------------
// Codes
// ---------------------------------------------------------------------------

/// The code space below the codes of length `b`: the longer codes come first.
pub open spec fn code_start(lens: Seq<int>, max: nat, b: nat, n: nat) -> nat
    decreases max - b,
{
    if b >= max {
        0
    } else {
        code_start(lens, max, b + 1, n) + fse_table::occurrences(lens, (b + 1) as int, n) * pow2(
            (max - (b + 1)) as nat,
        )
    }
}

/// The code space of all the first `n` symbols.
pub open spec fn code_space(lens: Seq<int>, max: nat, n: nat) -> nat
    decreases n,
{
    if n == 0 {
        0
    } else {
        code_space(lens, max, (n - 1) as nat) + (if lens[n - 1] > 0 {
            pow2((max - lens[n - 1]) as nat)
        } else {
            0
        })
    }
}

impl HufTab {
    pub open spec fn empty() -> HufTab {
        HufTab { max_bits: 0, lens: Seq::empty() }
    }

    /// A complete prefix code.
    pub open spec fn is_code(self) -> bool {
        &&& 1 <= self.max_bits <= 11
        &&& self.lens.len() <= 258
        &&& forall|s: int|
            0 <= s < self.lens.len() ==> 0 <= #[trigger] self.lens[s] <= self.max_bits
        &&& code_space(self.lens, self.max_bits, self.lens.len()) == pow2(self.max_bits)
    }

    pub open spec fn is_valid(self) -> bool {
        self.max_bits > 0 ==> self.is_code()
    }

    /// The size of the part of the code space that symbol `s` takes.
    pub open spec fn span(self, s: int) -> nat {
        pow2((self.max_bits - self.lens[s]) as nat)
    }

    /// Where the part of the code space that symbol `s` takes begins: after the
    /// longer codes, and after the codes of its length of the symbols below it.
    pub open spec fn base(self, s: int) -> nat {
        code_start(self.lens, self.max_bits, self.lens[s] as nat, self.lens.len())
            + fse_table::occurrences(self.lens, self.lens[s], s as nat) * self.span(s)
    }

    pub open spec fn owns(self, s: int, idx: int) -> bool {
        &&& 0 <= s < self.lens.len()
        &&& self.lens[s] > 0
        &&& self.base(s) <= idx < self.base(s) + self.span(s)
    }

    /// The symbol whose code starts the bits of `idx`.
    pub open spec fn symbol(self, idx: nat) -> int {
        choose|s: int| self.owns(s, idx as int)
    }
}

/// Adding a symbol adds its span to the code space below the shorter lengths.
pub proof fn lemma_code_start_push(lens: Seq<int>, max: nat, b: nat, n: nat)
    requires
        n < lens.len(),
        0 <= lens[n as int] <= max,
    ensures
        code_start(lens, max, b, n + 1) == code_start(lens, max, b, n) + (if lens[n as int] > b {
            pow2((max - lens[n as int]) as nat)
        } else {
            0
        }),
    decreases max - b,
{
    if b < max {
        lemma_code_start_push(lens, max, b + 1, n);
        let w = pow2((max - (b + 1)) as nat);
        let o = fse_table::occurrences(lens, (b + 1) as int, n);
        if lens[n as int] == b + 1 {
            assert((o + 1) * w == o * w + w) by (nonlinear_arith);
        }
    }
}

/// The two ways of adding up the code space agree.
pub proof fn lemma_code_space(lens: Seq<int>, max: nat, n: nat)
    requires
        n <= lens.len(),
        forall|s: int| 0 <= s < lens.len() ==> 0 <= #[trigger] lens[s] <= max,
    ensures
        code_start(lens, max, 0, n) == code_space(lens, max, n),
    decreases n,
{
    if n == 0 {
        lemma_code_start_zero(lens, max, 0);
    } else {
        lemma_code_space(lens, max, (n - 1) as nat);
        lemma_code_start_push(lens, max, 0, (n - 1) as nat);
    }
}

pub proof fn lemma_code_start_zero(lens: Seq<int>, max: nat, b: nat)
    ensures
        code_start(lens, max, b, 0) == 0,
    decreases max - b,
{
    if b < max {
        lemma_code_start_zero(lens, max, b + 1);
        assert(0 * pow2((max - (b + 1)) as nat) == 0) by (nonlinear_arith);
    }
}

pub proof fn lemma_code_start_monotone(lens: Seq<int>, max: nat, a: nat, b: nat, n: nat)
    requires
        a <= b,
    ensures
        code_start(lens, max, b, n) <= code_start(lens, max, a, n),
    decreases b - a,
{
    if a < b && a < max {
        lemma_code_start_monotone(lens, max, a + 1, b, n);
        assert(fse_table::occurrences(lens, (a + 1) as int, n) * pow2((max - (a + 1)) as nat) >= 0)
            by (nonlinear_arith);
    }
}

/// The part of a symbol lies inside the part of its length.
pub proof fn lemma_owns_range(t: HufTab, s: int)
    requires
        t.is_code(),
        0 <= s < t.lens.len(),
        t.lens[s] > 0,
    ensures
        code_start(t.lens, t.max_bits, t.lens[s] as nat, t.lens.len()) <= t.base(s),
        t.base(s) + t.span(s) <= code_start(
            t.lens,
            t.max_bits,
            (t.lens[s] - 1) as nat,
            t.lens.len(),
        ),
        t.base(s) + t.span(s) <= pow2(t.max_bits),
        t.span(s) > 0,
{
    let b = t.lens[s];
    let n = t.lens.len();
    let o = fse_table::occurrences(t.lens, b, s as nat);
    let total = fse_table::occurrences(t.lens, b, n);
    fse_table::lemma_occurrences_monotone(t.lens, b, s as nat, n);
    let w = t.span(s);
    lemma_pow2_pos((t.max_bits - b) as nat);
    assert(o * w + w <= total * w) by (nonlinear_arith)
        requires
            o + 1 <= total,
            w > 0,
    ;
    assert(o * w >= 0) by (nonlinear_arith);
    lemma_code_start_monotone(t.lens, t.max_bits, 0, (b - 1) as nat, n);
    lemma_code_space(t.lens, t.max_bits, n);
}

/// No two symbols share code space.
pub proof fn lemma_owns_unique(t: HufTab, s: int, u: int, idx: int)
    requires
        t.is_code(),
        t.owns(s, idx),
        t.owns(u, idx),
    ensures
        s == u,
{
    lemma_owns_range(t, s);
    lemma_owns_range(t, u);
    let n = t.lens.len();
    if t.lens[s] < t.lens[u] {
        lemma_code_start_monotone(
            t.lens,
            t.max_bits,
            t.lens[s] as nat,
            (t.lens[u] - 1) as nat,
            n,
        );
    } else if t.lens[u] < t.lens[s] {
        lemma_code_start_monotone(
            t.lens,
            t.max_bits,
            t.lens[u] as nat,
            (t.lens[s] - 1) as nat,
            n,
        );
    } else if s < u {
        lemma_same_length(t, s, u);
    } else if u < s {
        lemma_same_length(t, u, s);
    }
}

proof fn lemma_same_length(t: HufTab, s: int, u: int)
    requires
        t.is_code(),
        0 <= s < u < t.lens.len(),
        t.lens[s] == t.lens[u],
        t.lens[s] > 0,
    ensures
        t.base(s) + t.span(s) <= t.base(u),
{
    let b = t.lens[s];
    fse_table::lemma_occurrences_monotone(t.lens, b, s as nat, u as nat);
    let o = fse_table::occurrences(t.lens, b, s as nat);
    let p = fse_table::occurrences(t.lens, b, u as nat);
    let w = t.span(s);
    assert(o * w + w <= p * w) by (nonlinear_arith)
        requires
            o + 1 <= p,
            w >= 0,
    ;
}

/// The codes fill the code space: every index belongs to a symbol.
pub proof fn lemma_owner(t: HufTab, idx: nat)
    requires
        t.is_code(),
        idx < pow2(t.max_bits),
    ensures
        t.owns(t.symbol(idx), idx as int),
{
    lemma_code_space(t.lens, t.max_bits, t.lens.len());
    let s = lemma_owner_from(t, 0, idx);
    assert(t.owns(s, idx as int));
}

proof fn lemma_owner_from(t: HufTab, b: nat, idx: nat) -> (s: int)
    requires
        t.is_code(),
        b <= t.max_bits,
        idx < code_start(t.lens, t.max_bits, b, t.lens.len()),
    ensures
        t.owns(s, idx as int),
    decreases t.max_bits - b,
{
    let n = t.lens.len();
    let lo = code_start(t.lens, t.max_bits, b + 1, n);
    if idx < lo {
        lemma_owner_from(t, b + 1, idx)
    } else {
        let w = pow2((t.max_bits - (b + 1)) as nat);
        let o = fse_table::occurrences(t.lens, (b + 1) as int, n);
        lemma_pow2_pos((t.max_bits - (b + 1)) as nat);
        let d = (idx - lo) as nat;
        let j = d / w;
        lemma_fundamental_div_mod(d as int, w as int);
        assert(j < o) by (nonlinear_arith)
            requires
                d == w * j + d % w,
                d < o * w,
                d % w >= 0,
                w > 0,
        ;
        let s = fse_table::lemma_occurrence_exists(t.lens, (b + 1) as int, n, j);
        assert(j * w <= d < j * w + w) by (nonlinear_arith)
            requires
                d == w * j + d % w,
                0 <= d % w < w,
        ;
        s
    }
}

/// The code space of weights is the sum of their values.
pub proof fn lemma_weight_space(w: Seq<u8>, max: nat, lens: Seq<int>, i: nat, sum: nat)
    requires
        i <= w.len() <= lens.len(),
        sum_weights(w, i, sum) is Ok,
        forall|k: int| 0 <= k < w.len() ==> lens[k] == length_of(max, #[trigger] w[k] as int),
        sum == code_space(lens, max, i),
        forall|k: int| 0 <= k < w.len() ==> #[trigger] w[k] <= max,
    ensures
        sum_weights(w, i, sum) == Ok::<nat, DecodeError>(code_space(lens, max, w.len())),
    decreases w.len() - i,
{
    if i < w.len() {
        lemma_weight_space(w, max, lens, i + 1, sum + weight_value(w[i as int] as int));
    }
}

pub proof fn lemma_sum_weights_bound(w: Seq<u8>, i: nat, sum: nat)
    requires
        i <= w.len(),
        sum_weights(w, i, sum) is Ok,
    ensures
        sum_weights(w, i, sum)->Ok_0 >= sum,
        sum_weights(w, i, sum)->Ok_0 <= sum + 1024 * (w.len() - i),
        forall|k: int|
            i <= k < w.len() ==> #[trigger] w[k] <= 11 && weight_value(w[k] as int) <= sum_weights(
                w,
                i,
                sum,
            )->Ok_0,
    decreases w.len() - i,
{
    if i < w.len() {
        lemma2_to64();
        if w[i as int] > 0 {
            bits::lemma_pow2_monotone((w[i as int] - 1) as nat, 10);
        }
        lemma_sum_weights_bound(w, i + 1, sum + weight_value(w[i as int] as int));
    }
}

/// Weights that are accepted give a complete prefix code.
pub proof fn lemma_huf_table(w: Seq<u8>)
    requires
        w.len() <= 257,
        huf_table(w) is Ok,
    ensures
        huf_table(w)->Ok_0.is_code(),
        huf_table(w)->Ok_0.lens.len() == w.len() + 1,
{
    let t = huf_table(w)->Ok_0;
    let sum = sum_weights(w, 0, 0)->Ok_0;
    let max = t.max_bits;
    let left = (pow2(max) - sum) as nat;
    bits::lemma_high_bit(sum);
    lemma_sum_weights_bound(w, 0, 0);
    let h = bits::high_bit(left);
    bits::lemma_high_bit(left);
    lemma_pow2_unfold(max);
    assert(h < max) by {
        if h >= max {
            bits::lemma_pow2_monotone(max, h);
            lemma_pow2_pos((max - 1) as nat);
        }
    }
    assert forall|k: int| 0 <= k < w.len() implies #[trigger] w[k] <= max by {
        if w[k] > 0 && w[k] > max {
            bits::lemma_pow2_monotone(max, (w[k] - 1) as nat);
        }
    }
    lemma_weight_space(w, max, t.lens, 0, 0);
    assert forall|s: int| 0 <= s < t.lens.len() implies 0 <= #[trigger] t.lens[s] <= max by {
        if s < w.len() {
            assert(w[s] <= max);
        }
    }
    assert(max - t.lens[w.len() as int] == h);
}

// ---------------------------------------------------------------------------
// Decoding table
// ---------------------------------------------------------------------------

#[derive(Copy, Clone, Debug)]
pub struct HuffmanEntry {
    pub symbol: u8,
    pub num_bits: u8,
}

impl HuffmanEntry {
    pub open spec fn is_entry(self, t: HufTab, idx: nat) -> bool {
        &&& self.symbol == (t.symbol(idx) % 256) as u8
        &&& self.num_bits == t.lens[t.symbol(idx)]
    }
}

pub open spec fn lens_of(v: Seq<u8>) -> Seq<int> {
    Seq::new(v.len(), |i: int| v[i] as int)
}

pub struct HuffmanTable {
    pub decode: Vec<HuffmanEntry>,
    pub weights: Vec<u8>,
    pub max_num_bits: u8,
    pub bits: Vec<u8>,
    pub bit_ranks: Vec<u32>,
    pub rank_indexes: Vec<usize>,
    pub fse_table: FSETable,
}

impl HuffmanTable {
    pub open spec fn view(&self) -> HufTab {
        if self.max_num_bits == 0 {
            HufTab::empty()
        } else {
            HufTab { max_bits: self.max_num_bits as nat, lens: lens_of(self.bits@) }
        }
    }

    pub open spec fn wf(&self) -> bool {
        &&& self.fse_table.max_symbol == 255
        &&& self@.is_valid()
        &&& self.max_num_bits > 0 ==> {
            &&& self.decode@.len() == pow2(self.max_num_bits as nat)
            &&& forall|i: int|
                0 <= i < self.decode@.len() ==> (#[trigger] self.decode@[i]).is_entry(
                    self@,
                    i as nat,
                )
        }
    }

    pub fn new() -> (t: HuffmanTable)
        ensures
            t.wf(),
            t@ == HufTab::empty(),
    {
        HuffmanTable {
            decode: Vec::new(),
            weights: Vec::with_capacity(256),
            max_num_bits: 0,
            bits: Vec::with_capacity(256),
            bit_ranks: Vec::with_capacity(11),
            rank_indexes: Vec::with_capacity(11),
            fse_table: FSETable::new(255),
        }
    }

    /// Makes this table a copy of another one.
    pub fn reinit_from(&mut self, other: &Self)
        requires
            other.wf(),
            other.fse_table.wf(),
            old(self).fse_table.max_symbol == 255,
        ensures
            final(self).wf(),
            final(self)@ == other@,
    {
        self.reset();
        self.decode.extend_from_slice(&other.decode);
        self.weights.extend_from_slice(&other.weights);
        self.max_num_bits = other.max_num_bits;
        self.bits.extend_from_slice(&other.bits);
        self.rank_indexes.extend_from_slice(&other.rank_indexes);
        self.fse_table.reinit_from(&other.fse_table);
        proof {
            assert(self.bits@ =~= other.bits@);
            assert(self.decode@ =~= other.decode@);
        }
    }

    /// Forgets the table.
    pub fn reset(&mut self)
        requires
            old(self).fse_table.max_symbol == 255,
        ensures
            final(self).wf(),
            final(self)@ == HufTab::empty(),
            final(self).decode@.len() == 0,
            final(self).weights@.len() == 0,
            final(self).bits@.len() == 0,
            final(self).rank_indexes@.len() == 0,
    {
        self.decode.clear();
        self.weights.clear();
        self.max_num_bits = 0;
        self.bits.clear();
        self.bit_ranks.clear();
        self.rank_indexes.clear();
        self.fse_table.reset();
    }

    /// Reads a tree description and builds its table; returns the bytes read.
    pub fn build_decoder(&mut self, source: &[u8]) -> (r: Result<u32, DecodeError>)
        requires
            old(self).fse_table.max_symbol == 255,
            source@.len() <= bitreader::MAX_REVERSED_SOURCE,
        ensures
            final(self).fse_table.max_symbol == 255,
            match r {
                Ok(n) => {
                    &&& final(self).wf()
                    &&& huf_weights(source@) matches Ok((w, bytes))
                    &&& n == bytes
                    &&& n <= source@.len()
                    &&& huf_table(w) == Ok::<HufTab, DecodeError>(final(self)@)
                    &&& final(self)@.max_bits > 0
                },
                Err(e) => {
                    &&& final(self).decode@.len() == 0
                    &&& match huf_weights(source@) {
                        Err(f) => e == f,
                        Ok((w, _)) => huf_table(w) == Err::<HufTab, DecodeError>(e),
                    }
                },
            },
    {
        self.decode.clear();
        let bytes_used = match self.read_weights(source) {
            Ok(n) => n,
            Err(e) => {
                return Err(e);
            },
        };
        match self.build_table_from_weights() {
            Ok(_) => Ok(bytes_used),
            Err(e) => Err(e),
        }
    }

    /// Reads the weights of a tree description; returns the bytes that it takes.
    pub fn read_weights(&mut self, source: &[u8]) -> (r: Result<u32, DecodeError>)
        requires
            old(self).fse_table.max_symbol == 255,
            source@.len() <= usize::MAX / 8,
        ensures
            final(self).fse_table.max_symbol == 255,
            final(self).decode == old(self).decode,
            final(self).max_num_bits == old(self).max_num_bits,
            final(self).bits == old(self).bits,
            final(self).bit_ranks == old(self).bit_ranks,
            final(self).rank_indexes == old(self).rank_indexes,
            match r {
                Ok(n) => huf_weights(source@) == Ok::<(Seq<u8>, nat), DecodeError>(
                    (final(self).weights@, n as nat),
                ) && n <= source@.len() && final(self).weights@.len() <= 257,
                Err(e) => {
                    &&& huf_weights(source@) == Err::<(Seq<u8>, nat), DecodeError>(e)
                    &&& source@.len() == 0 || source@.len() <= source@[0] < 128 ==> *final(self)
                        == *old(self)
                },
            },
    {
        if source.len() == 0 {
            return Err(DecodeError::HuffmanSourceEmpty);
        }
        let header = source[0];
        let stream = &source[1..source.len()];
        assert(stream@ =~= source@.skip(1));
        if header < 128 {
            if header as usize > stream.len() {
                return Err(
                    DecodeError::NotEnoughWeightBytes {
                        have: stream.len(),
                        need: header as usize,
                    },
                );
            }
            let used = match self.fse_table.build_decoder(stream, 6) {
                Ok(n) => n,
                Err(e) => {
                    return Err(e);
                },
            };
            if used > header as usize {
                return Err(DecodeError::FseHeaderTooLong { used, available: header });
            }
            let compressed = &stream[used..header as usize];
            let mut br = BitReaderReversed::new(compressed);
            let ghost t = self.fse_table@;
            match skip_padding(&mut br) {
                Ok(_) => {},
                Err(e) => {
                    return Err(e);
                },
            }
            let mut dec1 = FSEDecoder::new(&self.fse_table);
            let mut dec2 = FSEDecoder::new(&self.fse_table);
            let ghost r0 = br@;
            proof {
                bitreader::lemma_start_wf(RevBits::of_bytes(compressed@), 0);
                bitreader::lemma_skip(r0, t.log);
                bitreader::lemma_skip(r0.skip(t.log), t.log);
            }
            match dec1.init_state(&mut br) {
                Ok(_) => {},
                Err(e) => {
                    return Err(e);
                },
            }
            match dec2.init_state(&mut br) {
                Ok(_) => {},
                Err(e) => {
                    return Err(e);
                },
            }
            match weights_from_states(dec1, dec2, &mut br) {
                Ok(weights) => {
                    self.weights = weights;
                    Ok(1 + header as u32)
                },
                Err(e) => Err(e),
            }
        } else {
            let num_weights = (header - 127) as usize;
            let bytes_needed = (num_weights + 1) / 2;
            if stream.len() < bytes_needed {
                return Err(
                    DecodeError::NotEnoughPackedWeights {
                        have: stream.len(),
                        need: bytes_needed,
                    },
                );
            }
            let mut weights: Vec<u8> = Vec::with_capacity(num_weights);
            let mut idx: usize = 0;
            while idx < num_weights
                invariant
                    idx <= num_weights,
                    stream@.len() >= (num_weights + 1) / 2,
                    weights@.len() == idx,
                    forall|i: int|
                        0 <= i < idx ==> #[trigger] weights@[i] == packed_weights(
                            stream@,
                            num_weights as nat,
                        )[i],
                decreases num_weights - idx,
            {
                if idx % 2 == 0 {
                    weights.push(stream[idx / 2] / 16);
                } else {
                    weights.push(stream[idx / 2] % 16);
                }
                idx = idx + 1;
            }
            assert(weights@ =~= packed_weights(stream@, num_weights as nat));
            self.weights = weights;
            Ok((1 + bytes_needed) as u32)
        }
    }

    /// Builds the decoding table of the weights.
    fn build_table_from_weights(&mut self) -> (r: Result<(), DecodeError>)
        requires
            old(self).fse_table.max_symbol == 255,
            old(self).weights@.len() <= 257,
            old(self).decode@.len() == 0,
        ensures
            final(self).fse_table.max_symbol == 255,
            final(self).weights == old(self).weights,
            match r {
                Ok(_) => final(self).wf() && huf_table(old(self).weights@) == Ok::<
                    HufTab,
                    DecodeError,
                >(final(self)@) && final(self)@.max_bits > 0,
                Err(e) => huf_table(old(self).weights@) == Err::<HufTab, DecodeError>(e)
                    && *final(self) == *old(self),
            },
    {
        let n = self.weights.len();
        let ghost w = self.weights@;
        let mut weight_sum: u32 = 0;
        let mut i: usize = 0;
        while i < n
            invariant
                n == self.weights@.len(),
                n <= 257,
                i <= n,
                w == self.weights@,
                w == old(self).weights@,
                weight_sum <= 1024 * i,
                sum_weights(w, 0, 0) == sum_weights(w, i as nat, weight_sum as nat),
                self.weights == old(self).weights,
                self.fse_table.max_symbol == 255,
                self.decode@.len() == 0,
            decreases n - i,
        {
            let weight = self.weights[i];
            if weight > MAX_MAX_NUM_BITS {
                return Err(DecodeError::WeightTooLarge { weight });
            }
            if weight > 0 {
                proof {
                    lemma2_to64();
                    bits::lemma_pow2_monotone((weight - 1) as nat, 10);
                }
                weight_sum = weight_sum + pow2_u32((weight - 1) as u32);
            }
            i = i + 1;
        }
        if weight_sum == 0 {
            return Err(DecodeError::MissingWeights);
        }
        let max_bits = highest_bit_set(weight_sum) as u8;
        proof {
            lemma2_to64();
            if max_bits > 19 {
                bits::lemma_pow2_monotone(19, (max_bits - 1) as nat);
            }
            bits::lemma_pow2_monotone(max_bits as nat, 19);
        }
        let left_over = pow2_u32(max_bits as u32) - weight_sum;
        let last_weight = highest_bit_set(left_over) as u8;
        if pow2_u32((last_weight - 1) as u32) != left_over {
            return Err(DecodeError::LeftoverNotPowerOfTwo { leftover: left_over });
        }
        if max_bits > MAX_MAX_NUM_BITS {
            return Err(DecodeError::MaxBitsTooLarge { bits: max_bits });
        }
        let ghost t = huf_table(w)->Ok_0;
        proof {
            lemma_huf_table(w);
            lemma_sum_weights_bound(w, 0, 0);
        }
        // Code lengths
        let mut lens: Vec<u8> = Vec::with_capacity(n + 1);
        i = 0;
        while i < n
            invariant
                n == self.weights@.len(),
                i <= n,
                w == self.weights@,
                self.weights == old(self).weights,
                self.fse_table.max_symbol == 255,
                self.decode@.len() == 0,
                t.is_code(),
                t.max_bits == max_bits,
                t.lens.len() == n + 1,
                forall|k: int|
                    0 <= k < n ==> t.lens[k] == length_of(max_bits as nat, #[trigger] w[k] as int),
                lens@.len() == i,
                forall|k: int| 0 <= k < i ==> #[trigger] lens@[k] == t.lens[k],
            decreases n - i,
        {
            let weight = self.weights[i];
            assert(t.lens[i as int] == length_of(max_bits as nat, w[i as int] as int));
            assert(0 <= t.lens[i as int]);
            let b = if weight > 0 {
                max_bits + 1 - weight
            } else {
                0
            };
            lens.push(b);
            i = i + 1;
        }
        assert(t.lens[n as int] == max_bits - (last_weight - 1));
        lens.push(max_bits + 1 - last_weight);
        let ghost tl = t.lens;
        assert(lens_of(lens@) =~= tl);
        self.bits = lens;
        self.max_num_bits = max_bits;
        // Numbers of codes of each length
        let ranks_len = max_bits as usize + 1;
        let mut ranks: Vec<u32> = vec![0u32; ranks_len];
        i = 0;
        while i < n + 1
            invariant
                n <= 257,
                i <= n + 1,
                self.bits@.len() == n + 1,
                tl == lens_of(self.bits@),
                t.is_code(),
                t.lens == tl,
                t.max_bits == max_bits,
                ranks_len == max_bits + 1,
                ranks@.len() == ranks_len,
                forall|b: int|
                    0 <= b < ranks_len ==> #[trigger] ranks@[b] == fse_table::occurrences(
                        tl,
                        b,
                        i as nat,
                    ),
                forall|b: int| 0 <= b < ranks_len ==> #[trigger] ranks@[b] <= i,
                self.weights == old(self).weights,
                self.fse_table.max_symbol == 255,
                self.decode@.len() == 0,
                self.max_num_bits == max_bits,
            decreases n + 1 - i,
        {
            let b = self.bits[i];
            assert(tl[i as int] == b);
            ranks[b as usize] = ranks[b as usize] + 1;
            i = i + 1;
        }
        self.bit_ranks = ranks;
        // Start of the code space of each length
        let mut starts: Vec<usize> = vec![0usize; ranks_len];
        let mut b: usize = max_bits as usize;
        proof {
            lemma_code_space(tl, max_bits as nat, tl.len());
        }
        while b > 0
            invariant
                n <= 257,
                t.is_code(),
                t.lens == tl,
                tl == lens_of(self.bits@),
                self.bits@.len() == n + 1,
                t.max_bits == max_bits,
                code_start(tl, max_bits as nat, 0, tl.len()) == pow2(max_bits as nat),
                b <= max_bits <= 11,
                ranks_len == max_bits + 1,
                self.bit_ranks@.len() == ranks_len,
                starts@.len() == ranks_len,
                forall|c: int|
                    0 <= c < ranks_len ==> #[trigger] self.bit_ranks@[c] == fse_table::occurrences(
                        tl,
                        c,
                        tl.len(),
                    ),
                forall|c: int|
                    0 <= c < ranks_len ==> #[trigger] self.bit_ranks@[c] <= 258,
                forall|c: int|
                    b <= c < ranks_len ==> #[trigger] starts@[c] == code_start(
                        tl,
                        max_bits as nat,
                        c as nat,
                        tl.len(),
                    ),
                self.weights == old(self).weights,
                self.fse_table.max_symbol == 255,
                self.decode@.len() == 0,
                self.max_num_bits == max_bits,
            decreases b,
        {
            proof {
                lemma_code_start_monotone(tl, max_bits as nat, 0, (b - 1) as nat, tl.len());
                lemma2_to64();
                bits::lemma_pow2_monotone(max_bits as nat, 11);
                bits::lemma_pow2_monotone((max_bits - b) as nat, 11);
            }
            let width = pow2_u32((max_bits as usize - b) as u32) as usize;
            let count = self.bit_ranks[b] as usize;
            assert(count * width <= 258 * 2048) by (nonlinear_arith)
                requires
                    0 <= count <= 258,
                    0 <= width <= 2048,
            ;
            starts[b - 1] = starts[b] + count * width;
            b = b - 1;
        }
        self.rank_indexes = starts;
        proof {
            lemma2_to64();
            bits::lemma_pow2_monotone(max_bits as nat, 11);
        }
        let size = pow2_u32(max_bits as u32) as usize;
        let mut decode: Vec<HuffmanEntry> = vec![HuffmanEntry { symbol: 0, num_bits: 0 }; size];
        let mut symbol: usize = 0;
        assert forall|c: int| 0 < c < ranks_len implies #[trigger] self.rank_indexes@[c]
            == code_start(tl, max_bits as nat, c as nat, tl.len()) + fse_table::occurrences(
            tl,
            c,
            0,
        ) * pow2((max_bits - c) as nat) by {
            assert(0 * pow2((max_bits - c) as nat) == 0) by (nonlinear_arith);
        }
        while symbol < n + 1
            invariant
                n <= 257,
                symbol <= n + 1,
                t.is_code(),
                t.lens == tl,
                tl == lens_of(self.bits@),
                self.bits@.len() == n + 1,
                t.max_bits == max_bits,
                max_bits <= 11,
                ranks_len == max_bits + 1,
                size == pow2(max_bits as nat),
                size <= 2048,
                decode@.len() == size,
                self.rank_indexes@.len() == ranks_len,
                forall|c: int|
                    0 < c < ranks_len ==> #[trigger] self.rank_indexes@[c] == code_start(
                        tl,
                        max_bits as nat,
                        c as nat,
                        tl.len(),
                    ) + fse_table::occurrences(tl, c, symbol as nat) * pow2((max_bits - c) as nat),
                forall|s: int, idx: int|
                    0 <= s < symbol && #[trigger] t.owns(s, idx) ==> decode@[idx].symbol == (s
                        % 256) as u8 && decode@[idx].num_bits == tl[s],
                self.weights == old(self).weights,
                self.fse_table.max_symbol == 255,
                self.max_num_bits == max_bits,
            decreases n + 1 - symbol,
        {
            let len_bits = self.bits[symbol];
            assert(tl[symbol as int] == len_bits);
            if len_bits != 0 {
                let base_idx = self.rank_indexes[len_bits as usize];
                proof {
                    lemma2_to64();
                    bits::lemma_pow2_monotone((max_bits - len_bits) as nat, 11);
                    lemma_owns_range(t, symbol as int);
                    let o = fse_table::occurrences(tl, len_bits as int, symbol as nat);
                    let wd = pow2((max_bits - len_bits) as nat);
                    assert((o + 1) * wd == o * wd + wd) by (nonlinear_arith);
                }
                let len = pow2_u32((max_bits - len_bits) as u32) as usize;
                assert(base_idx == t.base(symbol as int));
                self.rank_indexes[len_bits as usize] = base_idx + len;
                let mut idx: usize = 0;
                while idx < len
                    invariant
                        idx <= len,
                        t.is_code(),
                        t.lens == tl,
                        0 <= symbol < tl.len(),
                        tl[symbol as int] == len_bits,
                        len_bits > 0,
                        base_idx == t.base(symbol as int),
                        len == t.span(symbol as int),
                        base_idx + len <= size,
                        size == pow2(t.max_bits),
                        decode@.len() == size,
                        forall|s: int, k: int|
                            0 <= s < symbol && #[trigger] t.owns(s, k) ==> decode@[k].symbol == (s
                                % 256) as u8 && decode@[k].num_bits == tl[s],
                        forall|k: int|
                            base_idx <= k < base_idx + idx ==> (#[trigger] decode@[k]).symbol == (
                            symbol as int % 256) as u8 && decode@[k].num_bits == len_bits,
                    decreases len - idx,
                {
                    let at = base_idx + idx;
                    proof {
                        assert(t.owns(symbol as int, at as int));
                        assert forall|s: int, k: int|
                            0 <= s < symbol && #[trigger] t.owns(s, k) implies k != at && 0 <= k
                            < size by {
                            lemma_owns_range(t, s);
                            if k == at {
                                lemma_owns_unique(t, s, symbol as int, k);
                            }
                        }
                    }
                    decode[at] = HuffmanEntry {
                        symbol: (symbol % 256) as u8,
                        num_bits: len_bits,
                    };
                    idx = idx + 1;
                }
            }
            symbol = symbol + 1;
        }
        self.decode = decode;
        proof {
            assert(self@ == t);
            assert forall|i: int| 0 <= i < self.decode@.len() implies (
            #[trigger] self.decode@[i]).is_entry(t, i as nat) by {
                lemma_owner(t, i as nat);
                assert(t.owns(t.symbol(i as nat), i));
            }
        }
        Ok(())
    }
}

/// Takes turns between two decoder states until the bits run out.
fn weights_from_states(
    dec1: FSEDecoder<'_>,
    dec2: FSEDecoder<'_>,
    br: &mut BitReaderReversed<'_>,
) -> (r: Result<Vec<u8>, DecodeError>)
    requires
        dec1.wf(),
        dec2.wf(),
        dec1.table == dec2.table,
        old(br).wf(),
        old(br)@.wf(),
        old(br)@.debt <= 100,
    ensures
        match r {
            Ok(w) => weights_loop(
                dec1.table@,
                dec1.at@,
                dec2.at@,
                old(br)@,
                Seq::empty(),
            ) == Ok::<Seq<u8>, DecodeError>(w@) && w@.len() <= 257,
            Err(e) => weights_loop(
                dec1.table@,
                dec1.at@,
                dec2.at@,
                old(br)@,
                Seq::empty(),
            ) == Err::<Seq<u8>, DecodeError>(e),
        },
{
    let ghost t = dec1.table@;
    let mut d1 = dec1;
    let mut d2 = dec2;
    let mut weights: Vec<u8> = Vec::with_capacity(256);
    let ghost whole = weights_loop(t, d1.at@, d2.at@, br@, weights@);
    loop
        invariant
            br.wf(),
            br@.wf(),
            br@.debt <= 100,
            d1.wf(),
            d2.wf(),
            d1.table@ == t,
            d2.table@ == t,
            t == dec1.table@,
            weights@.len() <= 255,
            weights@.len() % 2 == 0,
            whole == weights_loop(t, d1.at@, d2.at@, br@, weights@),
            whole == weights_loop(dec1.table@, dec1.at@, dec2.at@, old(br)@, Seq::empty()),
        decreases 256 - weights@.len(),
    {
        let ghost ra = br@;
        proof {
            fse_decode::lemma_tab_cell(t, d1.at@);
            fse_decode::lemma_tab_cell(t, d2.at@);
            bitreader::lemma_skip(ra, t.next(d1.at@).bits);
        }
        weights.push(d1.decode_symbol());
        d1.update_state(br);
        if br.bits_remaining() < 0 {
            weights.push(d2.decode_symbol());
            return Ok(weights);
        }
        let ghost rb = br@;
        proof {
            bitreader::lemma_skip(rb, t.next(d2.at@).bits);
        }
        weights.push(d2.decode_symbol());
        d2.update_state(br);
        if br.bits_remaining() < 0 {
            weights.push(d1.decode_symbol());
            return Ok(weights);
        }
        if weights.len() > 255 {
            return Err(DecodeError::TooManyWeights { weights: weights.len() });
        }
    }
}

// ---------------------------------------------------------------------------
// Bit streams
// ---------------------------------------------------------------------------

/// Decodes symbols until no bit is left: the next `max_bits` bits, zeros past the
/// end included, tell the symbol and its code length.
pub open spec fn huf_run(t: HufTab, r: RevBits, acc: Seq<u8>) -> (Seq<u8>, RevBits)
    decreases
            (if r.remaining() > 0 {
                r.remaining()
            } else {
                0
            }),
{
    let s = t.symbol(r.peek(t.max_bits));
    if r.remaining() <= 0 || t.lens[s] <= 0 {
        (acc, r)
    } else {
        huf_run(t, r.skip(t.lens[s] as nat), acc.push((s % 256) as u8))
    }
}

/// The symbols of one stream, and how many bits remain unread past the last code
/// (fewer than none if the last code is cut off).
pub open spec fn huf_stream(t: HufTab, stream: Seq<u8>, acc: Seq<u8>) -> Result<
    (Seq<u8>, int),
    DecodeError,
> {
    match bitreader::stream_start(stream) {
        Err(e) => Err(e),
        Ok(r) => {
            let run = huf_run(t, r, acc);
            Ok((run.0, run.1.remaining()))
        },
    }
}

/// A decoder that holds the next `max_bits` bits of a stream.
pub struct HuffmanDecoder<'table> {
    pub table: &'table HuffmanTable,
    pub state: u64,
}

impl<'t> HuffmanDecoder<'t> {
    /// The decoder has looked `max_bits` ahead of `r`.
    pub open spec fn looks_ahead(&self, r: RevBits, br: RevBits) -> bool {
        &&& self.table.wf()
        &&& self.table@.max_bits > 0
        &&& r.wf()
        &&& self.state == r.peek(self.table@.max_bits)
        &&& self.state < pow2(self.table@.max_bits)
        &&& br == r.skip(self.table@.max_bits)
    }

    pub fn new(table: &'t HuffmanTable) -> (d: HuffmanDecoder<'t>)
        ensures
            d.table == table,
            d.state == 0,
    {
        HuffmanDecoder { table, state: 0 }
    }

    pub fn decode_symbol(&self) -> (s: u8)
        requires
            self.table.wf(),
            self.table@.max_bits > 0,
            self.state < pow2(self.table@.max_bits),
        ensures
            s == (self.table@.symbol(self.state as nat) % 256) as u8,
    {
        proof {
            lemma2_to64();
            bits::lemma_pow2_monotone(self.table@.max_bits, 11);
        }
        self.table.decode[self.state as usize].symbol
    }

    pub fn init_state(&mut self, br: &mut BitReaderReversed<'_>) -> (n: u8)
        requires
            old(self).table.wf(),
            old(self).table@.max_bits > 0,
            old(br).wf(),
            old(br)@.wf(),
            old(br)@.debt <= 0x1000_0000,
        ensures
            final(self).table == old(self).table,
            final(br).wf(),
            final(self).looks_ahead(old(br)@, final(br)@),
            n == old(self).table@.max_bits,
    {
        let num_bits = self.table.max_num_bits;
        let new_bits = br.get_bits(num_bits);
        self.state = new_bits;
        num_bits
    }

    /// Moves past the current code; returns its length.
    pub fn next_state(
        &mut self,
        br: &mut BitReaderReversed<'_>,
        Ghost(r): Ghost<RevBits>,
    ) -> (n: u8)
        requires
            old(self).looks_ahead(r, old(br)@),
            old(br).wf(),
            old(br)@.debt <= 0x1000_0000,
        ensures
            final(self).table == old(self).table,
            final(br).wf(),
            n == old(self).table@.lens[old(self).table@.symbol(old(self).state as nat)],
            1 <= n <= old(self).table@.max_bits,
            final(self).looks_ahead(r.skip(n as nat), final(br)@),
            final(br)@ == old(br)@.skip(n as nat),
    {
        let ghost t = self.table@;
        let ghost max = t.max_bits;
        let ghost st = self.state as nat;
        proof {
            lemma2_to64();
            bits::lemma_pow2_monotone(max, 11);
            lemma_owner(t, st);
        }
        let num_bits = self.table.decode[self.state as usize].num_bits;
        let ghost nb = num_bits as nat;
        let new_bits = br.get_bits(num_bits);
        let size = self.table.decode.len() as u64;
        proof {
            // r.peek(max + nb), split in two ways
            bitreader::lemma_peek_join(r, max, nb);
            bitreader::lemma_peek_join(r, nb, max);
            bitreader::lemma_skip_skip(r, max, nb);
            bitreader::lemma_skip_skip(r, nb, max);
            bitreader::lemma_skip(r, nb);
            bitreader::lemma_skip(r.skip(nb), max);
            bits::lemma_pow2_monotone(nb, 11);
            lemma_pow2_pos(max);
            lemma_pow2_pos(nb);
            lemma_pow2_adds(nb, (max - nb) as nat);
            let hi = r.peek(nb);
            let next = r.skip(nb).peek(max);
            let q = pow2(nb);
            assert(next + pow2(max) * hi == new_bits + q * st);
            assert(0 <= q * st <= 2048 * 2048) by (nonlinear_arith)
                requires
                    0 <= q <= 2048,
                    0 <= st <= 2048,
            ;
            lemma_mul_is_commutative(q as int, st as int);
            // next == (st * q) % 2^max + new_bits
            let m = pow2(max) as int;
            let a = (st * q) as int;
            lemma_fundamental_div_mod(a, m);
            assert(a % m == next - new_bits) by {
                // a == m * hi + (next - new_bits), a multiple of q below m
                let d = pow2((max - nb) as nat) as int;
                assert(m == q * d);
                assert(a % m == q * (st as int % d)) by {
                    lemma_truncate_middle(st as int, q as int, d);
                    lemma_mul_is_commutative(q as int, st as int);
                }
                lemma_fundamental_div_mod(st as int, d);
                let c = st as int / d;
                let e = st as int % d;
                assert(q * st == m * c + q * e) by (nonlinear_arith)
                    requires
                        st == d * c + e,
                        m == q * d,
                ;
                assert(q * e + new_bits < m) by (nonlinear_arith)
                    requires
                        e < d,
                        e >= 0,
                        new_bits < q,
                        m == q * d,
                        q > 0,
                ;
                assert(q * e >= 0) by (nonlinear_arith)
                    requires
                        q > 0,
                        e >= 0,
                ;
                // m * hi + next == m * c + (q * e + new_bits), both remainders below m
                lemma_mul_is_commutative(m, hi as int);
                lemma_mul_is_commutative(m, c);
                lemma_fundamental_div_mod_converse(
                    m * hi + next,
                    m,
                    hi as int,
                    next as int,
                );
                lemma_fundamental_div_mod_converse(
                    m * hi + next,
                    m,
                    c,
                    q * e + new_bits,
                );
            }
        }
        let shifted = self.state * pow2_u64(num_bits as u32);
        self.state = shifted % size + new_bits;
        num_bits
    }
}

/// Decodes one stream and appends its symbols; returns the bits that remain past
/// the last code.
pub fn decode_stream(table: &HuffmanTable, stream: &[u8], target: &mut Vec<u8>) -> (r: Result<
    isize,
    DecodeError,
>)
    requires
        table.wf(),
        table@.max_bits > 0,
        stream@.len() <= bitreader::MAX_REVERSED_SOURCE,
    ensures
        match r {
            Ok(n) => huf_stream(table@, stream@, old(target)@) == Ok::<
                (Seq<u8>, int),
                DecodeError,
            >((final(target)@, n as int)) && -11 < n <= 0,
            Err(e) => {
                &&& huf_stream(table@, stream@, old(target)@) == Err::<(Seq<u8>, int), DecodeError>(
                    e,
                )
                &&& final(target)@ == old(target)@
            },
        },
        final(target)@.len() <= old(target)@.len() + 8 * stream@.len(),
{
    let mut br = BitReaderReversed::new(stream);
    proof {
        bitreader::lemma_start_wf(br@, 0);
        lemma_start_len(br@, 0);
    }
    match skip_padding(&mut br) {
        Ok(_) => {},
        Err(e) => {
            return Err(e);
        },
    }
    let ghost mut cur = br@;
    let ghost whole = huf_run(table@, cur, target@);
    let mut decoder = HuffmanDecoder::new(table);
    let max = decoder.init_state(&mut br) as isize;
    proof {
        bitreader::lemma_skip(cur, table@.max_bits);
    }
    while br.bits_remaining() > -max
        invariant
            br.wf(),
            table.wf(),
            table@.max_bits > 0,
            max == table@.max_bits,
            decoder.table == table,
            decoder.looks_ahead(cur, br@),
            cur.wf(),
            cur.remaining() > -11,
            br@.remaining() == cur.remaining() - max,
            br@.debt <= 30,
            whole == huf_run(table@, cur, target@),
            target@.len() + (if cur.remaining() > 0 {
                cur.remaining()
            } else {
                0
            }) <= old(target)@.len() + 8 * stream@.len(),
            target@.len() <= old(target)@.len() + 8 * stream@.len(),
        decreases
                (if cur.remaining() > 0 {
                    cur.remaining()
                } else {
                    0
                }),
    {
        proof {
            lemma_owner(table@, decoder.state as nat);
        }
        target.push(decoder.decode_symbol());
        let n = decoder.next_state(&mut br, Ghost(cur));
        proof {
            bitreader::lemma_skip(cur, n as nat);
            cur = cur.skip(n as nat);
            bitreader::lemma_skip(cur, max as nat);
        }
    }
    Ok(br.bits_remaining() + max)
}

proof fn lemma_start_len(r: RevBits, skipped: nat)
    requires
        r.wf(),
    ensures
        bitreader::skip_padding_from(r, skipped) matches Ok(s) ==> s.remaining() <= r.remaining()
            && s.debt <= r.debt + 9 && s.remaining() >= 0,
    decreases 9 - skipped,
{
    if skipped < 9 {
        bitreader::lemma_skip(r, 1);
        if r.peek(1) == 1 && skipped < 8 {
            if r.remaining() <= 0 {
                assert(bits::val(r.bits) == 0);
                assert(r.peek(1) == 0) by (nonlinear_arith)
                    requires
                        r.peek(1) == 0 * pow2(1),
                ;
            }
        } else {
            lemma_start_len(r.skip(1), skipped + 1);
        }
    }
}

/// Decodes Huffman weights from their compressed form: `header` is the first byte
/// of the tree description, `source` what follows it.
pub fn decode_huf_weights_from_fse(source: &[u8], header: u8) -> (r: Result<Vec<u8>, DecodeError>)
    requires
        source@.len() < usize::MAX / 8,
    ensures
        match r {
            Ok(w) => huf_weights(seq![header] + source@) matches Ok((v, _)) && w@ == v,
            Err(e) => huf_weights(seq![header] + source@) == Err::<(Seq<u8>, nat), DecodeError>(e),
        },
{
    let mut ht = HuffmanTable::new();
    let mut full: Vec<u8> = Vec::with_capacity(source.len() + 1);
    full.push(header);
    full.extend_from_slice(source);
    assert(full@ =~= seq![header] + source@);
    match ht.read_weights(&full) {
        Ok(_) => Ok(ht.weights),
        Err(e) => Err(e),
    }
}

} // verus!
