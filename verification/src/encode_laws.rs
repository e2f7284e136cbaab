//! What the compressor chooses where a decoder would take more than one thing.
use crate::bits;
use crate::block;
use crate::block::Carried;
use crate::bytes;
use crate::compress;
use crate::constants::{LL_DEFAULT_NORM, ML_DEFAULT_NORM, OF_DEFAULT_NORM};
use crate::cost;
use crate::execute::OffsetHistory;
use crate::frame;
use crate::fse;
use crate::fse_header;
use crate::fse_table;
use crate::huf_codes;
use crate::huf_weights;
use crate::huffman::HufTab;
use crate::lit_section;
use crate::matcher;
use crate::matcher::{MatchParams, RawSequence};
use crate::normalize;
use crate::offsets;
use crate::seq_section;
use crate::seq_section::{EncodedSequence, TabMode};
use crate::sequences::CodeTab;
use vstd::arithmetic::power2::*;
use vstd::prelude::*;

verus! {

// ---------------------------------------------------------------------------
// Frames
// ---------------------------------------------------------------------------

/// A frame header has the magic number, the descriptor of a single segment, and the size of
/// the content in 1, 2, 4 or 8 bytes, the fewest that hold it.
pub proof fn lemma_shortest_header(n: nat)
    requires
        n <= u64::MAX,
    ensures
        frame::header_for(n).len() == (if n < 256 {
            6int
        } else if n < 256 + 65536 {
            7
        } else if n < 0x1_0000_0000 {
            9
        } else {
            13
        }),
        frame::header_for(n).take(4) == seq![0x28u8, 0xB5, 0x2F, 0xFD],
        (frame::header_for(n)[4] / 32) % 2 == 1,
        frame::header_for(n)[4] % 32 == 0,
        frame::header_for(n)[4] / 64 == (if n < 256 {
            0int
        } else if n < 256 + 65536 {
            1
        } else if n < 0x1_0000_0000 {
            2
        } else {
            3
        }),
{
    let magic = bytes::le_bytes(0xFD2FB528, 4);
    bytes::lemma_le_len(0xFD2FB528, 4);
    bytes::lemma_le_len(n, 1);
    bytes::lemma_le_len((n - 256) as nat, 2);
    bytes::lemma_le_len(n, 4);
    bytes::lemma_le_len(n, 8);
    reveal_with_fuel(bytes::le_bytes, 5);
    assert(magic =~= seq![0x28u8, 0xB5, 0x2F, 0xFD]);
    assert(frame::header_for(n).take(4) =~= magic);
    assert(frame::header_for(n)[4] == frame::descriptor_for(n));
}

/// No data is one block of no bytes.
pub proof fn lemma_no_data(level: int)
    ensures
        compress::frame_blocks(Seq::empty(), level) == seq![1u8, 0, 0],
{
    reveal_with_fuel(bytes::le_bytes, 4);
    assert(compress::frame_blocks(Seq::empty(), level) =~= seq![1u8, 0, 0]);
}

proof fn lemma_plain_shift(data: Seq<u8>, pos: int, start: int)
    requires
        0 <= start <= pos <= data.len(),
    ensures
        compress::plain_blocks(data.skip(start), pos - start) == compress::plain_blocks(data, pos),
    decreases data.len() - pos,
{
    let tail = data.skip(start);
    if pos < data.len() {
        let end = pos + compress::at_most_block(data.len() - pos);
        lemma_plain_shift(data, end, start);
        assert(tail.subrange(pos - start, end - start) =~= data.subrange(pos, end));
    }
}

/// Without compression a frame is one block for each 128 KiB, and one for the rest.
pub proof fn lemma_stored(data: Seq<u8>, level: int)
    requires
        level <= 0,
        data.len() > 0,
    ensures
        compress::frame_blocks(data, level) == if data.len() <= 128 * 1024 {
            frame::plain_block(data, true)
        } else {
            frame::plain_block(data.take(131072), false) + compress::frame_blocks(
                data.skip(131072),
                level,
            )
        },
{
    let end = compress::at_most_block(data.len() as int);
    assert(data.subrange(0, end) =~= data.take(end));
    if data.len() <= 131072 {
        assert(data.take(end) =~= data);
        assert(compress::plain_blocks(data, end) =~= Seq::<u8>::empty());
        let b = frame::plain_block(data, true);
        assert(b + Seq::<u8>::empty() =~= b);
        assert(data.take(end) == data);
    } else {
        lemma_plain_shift(data, end, end);
    }
}

/// A block without compression: four bytes where all its bytes are the same, and else three
/// bytes more than it holds.
pub proof fn lemma_plain_len(b: Seq<u8>, last: bool)
    ensures
        frame::plain_block(b, last).len() == (if b.len() > 0 && (forall|i: int, j: int|
            0 <= i < b.len() && 0 <= j < b.len() ==> #[trigger] b[i] == #[trigger] b[j]) {
            4
        } else {
            3 + b.len()
        }),
{
    frame::lemma_block_head_len(last, 0, b.len());
    frame::lemma_block_head_len(last, 1, b.len());
    if frame::is_rle(b) {
        assert forall|i: int, j: int| 0 <= i < b.len() && 0 <= j < b.len() implies #[trigger] b[i]
            == #[trigger] b[j] by {
            assert(b[i] == b[0]);
            assert(b[j] == b[0]);
        }
    } else if b.len() > 0 {
        let k = choose|k: int| 0 <= k < b.len() && #[trigger] b[k] != b[0];
        assert(b[k] != b[0]);
    }
}

proof fn lemma_all_fit(data: Seq<u8>, seqs: Seq<RawSequence>, i: nat)
    requires
        matcher::is_parse(data, seqs),
        data.len() <= 131072,
        i <= seqs.len(),
    ensures
        compress::fitting(seqs, i, 0) == seqs.len(),
    decreases seqs.len() - i,
{
    reveal(matcher::is_parse);
    if i < seqs.len() {
        block::lemma_made_monotone(seqs, i + 1, seqs.len());
        lemma_all_fit(data, seqs, i + 1);
    }
}

/// From level 1 on, data of at most 128 KiB is one block with all the matches of the level's
/// search.  It is compressed exactly where that is shorter, unless all bytes are the same.
pub proof fn lemma_one_block(data: Seq<u8>, level: int)
    requires
        level >= 1,
        0 < data.len() <= 128 * 1024,
    ensures
        ({
            let seqs = matcher::all_matches(data, MatchParams::for_level(level));
            let start = Carried {
                hist: OffsetHistory { r0: 1, r1: 4, r2: 8 },
                huf: HufTab { max_bits: 0, lens: Seq::empty() },
            };
            let content = block::block_bytes(data, seqs, start);
            compress::frame_blocks(data, level) == if seqs.len() > 0 && !frame::is_rle(data)
                && content.len() < data.len() {
                frame::coded_block(content, true)
            } else {
                frame::plain_block(data, true)
            }
        }),
{
    let p = MatchParams::for_level(level);
    let seqs = matcher::all_matches(data, p);
    let n = seqs.len();
    let c = Carried::initial();
    matcher::lemma_all_matches(data, p);
    lemma_all_fit(data, seqs, 0);
    assert(matcher::made_by(seqs, 0) == 0);
    if n > 0 {
        assert(matcher::match_at(seqs, 0) == seqs[0].ll);
    }
    assert(compress::block_parts(seqs, 0, n, 0) =~= seqs);
    assert(data.subrange(0, data.len() as int) =~= data);
    reveal(compress::coded_blocks);
    let c1 = compress::carried_after_block(data, seqs, c);
    assert(compress::coded_blocks(data, seqs, n, data.len() as int, c1) =~= Seq::<u8>::empty());
    let b = compress::any_block(data, seqs, c, true);
    assert(b + Seq::<u8>::empty() =~= b);
    assert(compress::block_end(data, seqs, 0, n, 0) == data.len());
}

/// A block is as long as the rule allows: it ends with the data, it has 128 KiB, or what it
/// would have to take next, a sequence or all the rest, does not fit.
pub proof fn lemma_full_blocks(data: Seq<u8>, seqs: Seq<RawSequence>, i: nat, pos: int)
    requires
        matcher::is_parse(data, seqs),
        compress::is_next(seqs, i, pos),
        0 <= pos < data.len(),
    ensures
        ({
            let j = compress::fitting(seqs, i, pos);
            let end = compress::block_end(data, seqs, i, j, pos);
            &&& end == data.len() || end - pos == 128 * 1024 || (j < seqs.len()
                && matcher::made_by(seqs, j + 1) - pos > 128 * 1024) || (j == seqs.len()
                && data.len() - pos > 128 * 1024)
            &&& i < j ==> matcher::made_by(seqs, j) - pos <= 128 * 1024
        }),
{
    lemma_next_does_not_fit(seqs, i, pos);
    compress::lemma_block_end(data, seqs, i, pos);
}

proof fn lemma_next_does_not_fit(seqs: Seq<RawSequence>, i: nat, pos: int)
    requires
        i <= seqs.len(),
    ensures
        i <= compress::fitting(seqs, i, pos) <= seqs.len(),
        compress::fitting(seqs, i, pos) < seqs.len() ==> matcher::made_by(
            seqs,
            compress::fitting(seqs, i, pos) + 1,
        ) - pos > 131072,
        i < compress::fitting(seqs, i, pos) ==> matcher::made_by(
            seqs,
            compress::fitting(seqs, i, pos),
        ) - pos <= 131072,
    decreases seqs.len() - i,
{
    if i < seqs.len() && matcher::made_by(seqs, i + 1) - pos <= 131072 {
        lemma_next_does_not_fit(seqs, i + 1, pos);
    }
}

// ---------------------------------------------------------------------------
// Offsets
// ---------------------------------------------------------------------------

/// Of the values that stand for an offset the smallest is written.
pub proof fn lemma_smallest_value(h: OffsetHistory, off: nat, ll: nat, v: nat)
    requires
        off >= 1,
        v >= 1,
        h.r0 >= 1,
        h.offset(v, ll) == off,
    ensures
        h.offset(offsets::offset_value(h, off, ll), ll) == off,
        1 <= offsets::offset_value(h, off, ll) <= v,
{
}

// ---------------------------------------------------------------------------
// Literals
// ---------------------------------------------------------------------------

/// A literals section is never longer than its plain form, and from 64 literals on never
/// longer than with Huffman codes, new ones or those of the block before, where these make it
/// shorter than the literals.
pub proof fn lemma_shortest_literals(lits: Seq<u8>, huf: HufTab)
    ensures
        lit_section::literals_section(lits, huf).len() <= lit_section::raw_section(lits).len(),
        lit_section::raw_section(lits).len() == lits.len() + (if lits.len() < 32 {
            1int
        } else if lits.len() < 4096 {
            2
        } else {
            3
        }),
        (lits.len() >= 64 && (lit_section::huffman_section(lits) matches Some(x) && x.len()
            < lits.len())) ==> lit_section::literals_section(lits, huf).len()
            <= lit_section::huffman_section(lits)->Some_0.len(),
        (lits.len() >= 64 && (lit_section::treeless_section(lits, huf) matches Some(x) && x.len()
            < lits.len())) ==> lit_section::literals_section(lits, huf).len()
            <= lit_section::treeless_section(lits, huf)->Some_0.len(),
{
    bytes::lemma_le_len(8 * lits.len(), 1);
    bytes::lemma_le_len(4 + 16 * lits.len(), 2);
    bytes::lemma_le_len(12 + 16 * lits.len(), 3);
}

/// Where Huffman codes are used, those of the block before are taken if they make the section
/// no longer than new ones, which would need a tree.
pub proof fn lemma_codes_kept(lits: Seq<u8>, huf: HufTab)
    requires
        lits.len() >= 64,
    ensures
        (lit_section::treeless_section(lits, huf) matches Some(x) && x.len() < lits.len() && (
        lit_section::huffman_section(lits) matches Some(y) ==> x.len() <= y.len()))
            ==> lit_section::literals_section(lits, huf) == lit_section::treeless_section(
            lits,
            huf,
        )->Some_0 && lit_section::table_after(lits, huf) == huf,
        (lit_section::huffman_section(lits) matches Some(y) && y.len() < lits.len() && (
        lit_section::treeless_section(lits, huf) matches Some(x) ==> x.len() > y.len()))
            ==> lit_section::literals_section(lits, huf) == lit_section::huffman_section(
            lits,
        )->Some_0 && lit_section::table_after(lits, huf) == lit_section::table_for(
            seq_section::counts_of(lits),
        )->Some_0,
{
}

/// Four streams share the literals: the first three have a quarter each, rounded up.
pub proof fn lemma_quarters(n: nat)
    requires
        n >= 6,
    ensures
        huf_codes::quarter(n, 0) == 0,
        4 * huf_codes::quarter(n, 1) >= n,
        4 * huf_codes::quarter(n, 1) < n + 4,
        huf_codes::quarter(n, 2) == 2 * huf_codes::quarter(n, 1),
        huf_codes::quarter(n, 3) == 3 * huf_codes::quarter(n, 1),
        huf_codes::quarter(n, 4) == n,
{
}

/// One stream below 1024 literals, four from there on.
pub proof fn lemma_number_of_streams(codes: Seq<(u32, u8)>, lits: Seq<u8>)
    ensures
        lits.len() < 1024 ==> lit_section::literal_streams(codes, lits) == bits::backward_stream(
            huf_codes::data_bits(codes, lits),
        ),
        lits.len() >= 1024 ==> lit_section::literal_streams(codes, lits)
            == huf_codes::four_streams_of(codes, lits),
{
    reveal(huf_codes::stream_of);
}

/// The description of a tree of up to 129 symbols has half a byte for each weight and one byte
/// more; that of a larger one is shorter.
pub proof fn lemma_tree_description_len(w: Seq<u8>)
    requires
        lit_section::writable(w),
    ensures
        w.len() <= 128 ==> lit_section::tree_description(w).len() == 1 + (w.len() + 1) / 2,
        w.len() > 128 ==> lit_section::tree_description(w).len() <= (w.len() + 1) / 2,
        (w.len() > 128 && (huf_weights::compressed_weights(w) matches Some(c) && c.len() < 127
            && c.len() < (w.len() + 1) / 2)) ==> lit_section::tree_description(w).len() == 1
            + huf_weights::compressed_weights(w)->Some_0.len(),
{
}

// ---------------------------------------------------------------------------
// Sequences
// ---------------------------------------------------------------------------

proof fn lemma_freq_set(codes: Seq<u8>, n: nat, c: int)
    requires
        n <= codes.len(),
    ensures
        Set::new(|i: int| 0 <= i < n && codes[i] == c).finite(),
        Set::new(|i: int| 0 <= i < n && codes[i] == c).len() == normalize::freq(codes, n, c),
    decreases n,
{
    let now = Set::new(|i: int| 0 <= i < n && codes[i] == c);
    if n == 0 {
        assert(now =~= Set::<int>::empty());
    } else {
        lemma_freq_set(codes, (n - 1) as nat, c);
        let before = Set::new(|i: int| 0 <= i < n - 1 && codes[i] == c);
        if codes[n - 1] == c {
            assert(now =~= before.insert(n - 1));
        } else {
            assert(now =~= before);
        }
    }
}

/// A count is the number of places where the code stands, and the codes that have one go up to
/// the largest.
pub proof fn lemma_counted(codes: Seq<u8>, c: int)
    requires
        0 < codes.len() <= u32::MAX,
        0 <= c < seq_section::counts_of(codes).len(),
    ensures
        seq_section::counts_of(codes)[c] == Set::new(
            |i: int| 0 <= i < codes.len() && codes[i] == c,
        ).len(),
        forall|i: int|
            0 <= i < codes.len() ==> (#[trigger] codes[i]) < seq_section::counts_of(codes).len(),
        exists|i: int|
            0 <= i < codes.len() && (#[trigger] codes[i]) + 1 == seq_section::counts_of(
                codes,
            ).len(),
{
    lemma_freq_set(codes, codes.len(), c);
    seq_section::lemma_counts(codes);
    seq_section::lemma_max_of(codes, codes.len());
    lemma_freq_bound(codes, codes.len(), c);
}

proof fn lemma_freq_bound(codes: Seq<u8>, n: nat, c: int)
    ensures
        normalize::freq(codes, n, c) <= n,
    decreases n,
{
    if n > 0 {
        lemma_freq_bound(codes, (n - 1) as nat, c);
    }
}

proof fn lemma_freq_positive(codes: Seq<u8>, n: nat, i: int)
    requires
        0 <= i < n <= codes.len(),
    ensures
        normalize::freq(codes, n, codes[i] as int) > 0,
    decreases n,
{
    if i < n - 1 {
        lemma_freq_positive(codes, (n - 1) as nat, i);
    }
}

proof fn lemma_freq_of_others(codes: Seq<u8>, n: nat, c: int)
    requires
        n <= codes.len(),
        forall|i: int| 0 <= i < n ==> #[trigger] codes[i] != c,
    ensures
        normalize::freq(codes, n, c) == 0,
    decreases n,
{
    if n > 0 {
        assert(codes[n - 1] != c);
        lemma_freq_of_others(codes, (n - 1) as nat, c);
    }
}

proof fn lemma_used_one(counts: Seq<u32>, n: nat, c: int)
    requires
        n <= counts.len(),
        forall|i: int| 0 <= i < n && i != c ==> #[trigger] counts[i] == 0,
    ensures
        normalize::used_count(counts, n) == (if 0 <= c < n && counts[c] > 0 {
            1nat
        } else {
            0
        }),
    decreases n,
{
    if n > 0 {
        lemma_used_one(counts, (n - 1) as nat, c);
        if n - 1 != c {
            assert(counts[n - 1] == 0);
        }
    }
}

proof fn lemma_used_two(counts: Seq<u32>, n: nat, a: int, b: int)
    requires
        0 <= a < b < n <= counts.len(),
        counts[a] > 0,
        counts[b] > 0,
    ensures
        normalize::used_count(counts, n) >= 2,
    decreases n,
{
    if b < n - 1 {
        lemma_used_two(counts, (n - 1) as nat, a, b);
    } else {
        lemma_used_some(counts, (n - 1) as nat, a);
    }
}

proof fn lemma_used_some(counts: Seq<u32>, n: nat, a: int)
    requires
        0 <= a < n <= counts.len(),
        counts[a] > 0,
    ensures
        normalize::used_count(counts, n) >= 1,
    decreases n,
{
    if a < n - 1 {
        lemma_used_some(counts, (n - 1) as nat, a);
    }
}

/// Codes that are all the same take one byte and no bits; no others are written so.
pub proof fn lemma_single_code(
    codes: Seq<u8>,
    max_default: nat,
    default_log: nat,
    default_norm: Seq<i16>,
    max_log: nat,
)
    requires
        0 < codes.len() <= u32::MAX,
    ensures
        seq_section::seq_mode(codes, max_default, default_log, default_norm, max_log)
            == TabMode::Rle(codes[0]) <==> (forall|i: int|
            0 <= i < codes.len() ==> #[trigger] codes[i] == codes[0]),
        seq_section::seq_mode(codes, max_default, default_log, default_norm, max_log) is Rle
            ==> seq_section::seq_mode(codes, max_default, default_log, default_norm, max_log)
            == TabMode::Rle(codes[0]),
{
    reveal(seq_section::seq_mode);
    let counts = seq_section::counts_of(codes);
    let n = codes.len();
    seq_section::lemma_counts(codes);
    let c = codes[0] as int;
    lemma_freq_positive(codes, n, 0);
    if forall|i: int| 0 <= i < codes.len() ==> #[trigger] codes[i] == codes[0] {
        assert forall|k: int| 0 <= k < counts.len() && k != c implies #[trigger] counts[k]
            == 0 by {
            lemma_freq_of_others(codes, n, k);
        }
        assert(counts[c] > 0);
        lemma_used_one(counts, counts.len(), c);
    } else {
        let i = choose|i: int| 0 <= i < codes.len() && #[trigger] codes[i] != codes[0];
        let d = codes[i] as int;
        lemma_freq_positive(codes, n, i);
        assert(counts[c] > 0);
        assert(counts[d] > 0);
        if c < d {
            lemma_used_two(counts, counts.len(), c, d);
        } else {
            lemma_used_two(counts, counts.len(), d, c);
        }
    }
}

/// Of the predefined table and one made for the codes, the one with the lower estimate is
/// taken; the predefined one where they are equal, and never where it lacks a code.
pub proof fn lemma_lower_estimate(
    codes: Seq<u8>,
    max_default: nat,
    default_log: nat,
    default_norm: Seq<i16>,
    max_log: nat,
)
    ensures
        ({
            let mode = seq_section::seq_mode(
                codes,
                max_default,
                default_log,
                default_norm,
                max_log,
            );
            let counts = seq_section::counts_of(codes);
            let fits = seq_section::fits_default(counts, max_default, default_norm);
            let fixed = seq_section::default_bits(counts, default_log, default_norm);
            &&& codes.len() == 0 ==> mode is Predefined
            &&& codes.len() > 0 && mode is Predefined ==> fits
            &&& mode matches TabMode::Fse { probs, log } ==> {
                let made = seq_section::custom_bits(counts, codes.len(), probs, log);
                &&& probs == normalize::normalized(counts, pow2(log))
                &&& fits ==> made < fixed
                &&& 5 <= log || log == max_log
                &&& log <= max_log
            }
            &&& codes.len() > 0 && mode is Predefined ==> {
                let log = seq_section::custom_log(
                    normalize::used_count(counts, counts.len()),
                    max_log,
                );
                fixed <= seq_section::custom_bits(
                    counts,
                    codes.len(),
                    normalize::normalized(counts, pow2(log)),
                    log,
                )
            }
        }),
{
    reveal(seq_section::seq_mode);
}

/// A table made for codes has at least as many cells as codes that occur, where the largest
/// table allowed has; no more than twice as many, and at least 32.
pub proof fn lemma_table_size(used: nat, max_log: nat)
    requires
        used >= 1,
        max_log >= 5,
    ensures
        ({
            let log = seq_section::custom_log(used, max_log);
            &&& log == max_log || used < pow2(log)
            &&& log == 5 || pow2(log) <= 2 * used || log == max_log
            &&& log >= 5
            &&& log <= max_log
        }),
{
    bits::lemma_high_bit(used);
    lemma_pow2_unfold(bits::high_bit(used) + 1);
    if bits::high_bit(used) + 1 < 5 {
        bits::lemma_pow2_monotone(bits::high_bit(used) + 1, 5);
    }
}

/// The last code of a stream is written with the lowest cell of it.
pub proof fn lemma_lowest_cell(t: CodeTab, s: int, p: nat)
    requires
        t.rle is None,
        fse_table::is_distribution(t.tab.probs, t.tab.log),
        fse::has_cells(t.tab, s),
        p < pow2(t.tab.log),
        t.tab.symbol(p) == s,
    ensures
        t.tab.symbol(fse::enc_init(t, s)) == s,
        fse::enc_init(t, s) <= p,
{
    let sp = fse_table::spread(t.tab.probs, t.tab.log);
    assert(t.tab.probs[s] >= -1);
    fse::lemma_cell_of(t.tab, s, 0);
    let q = fse::enc_init(t, s);
    if p < q {
        fse_table::lemma_occurrences_monotone(sp, s, p, q);
        fse_table::lemma_occurrences_monotone(sp, s, p + 1, q);
    }
}

/// The header of Huffman-coded literals has three bytes below 1024 literals, four below 16384,
/// and five from there on.
pub proof fn lemma_coded_header_len(ty: nat, regen: nat, comp: nat)
    ensures
        lit_section::huffman_header(ty, regen, comp).len() == (if regen < 1024 {
            3int
        } else if regen < 16384 {
            4
        } else {
            5
        }),
{
    bytes::lemma_le_len(ty + 16 * regen + 16384 * comp, 3);
    bytes::lemma_le_len(ty + 8 + 16 * regen + 262144 * comp, 4);
    bytes::lemma_le_len(ty + 12 + 16 * regen + 4194304 * comp, 5);
}

/// The number of sequences takes one byte below 128, two below 32512, and else three.
pub proof fn lemma_count_len(n: nat)
    ensures
        seq_section::count_bytes(n).len() == (if n < 128 {
            1int
        } else if n < 32512 {
            2
        } else {
            3
        }),
{
}

/// The estimates: codes with the predefined table take its logarithm and what their cells
/// cost; with a table made for them they take its description, its logarithm, what their
/// frequencies cost, and a byte.
pub proof fn lemma_estimates(
    counts: Seq<u32>,
    n: nat,
    default_log: nat,
    default_norm: Seq<i16>,
    probs: Seq<int>,
    log: nat,
)
    ensures
        seq_section::default_bits(counts, default_log, default_norm) == default_log
            + cost::whole_bits(
            cost::table_cost(counts, default_norm, default_log, counts.len()),
        ),
        seq_section::custom_bits(counts, n, probs, log) == log + cost::whole_bits(
            cost::entropy_cost(counts, n, counts.len()) as int,
        ) + 8 * (1 + fse_header::header_bytes(probs, log).len()),
{
}

/// From level 1 on the blocks of a frame hold the matches of the level's search in all the
/// data.
pub proof fn lemma_blocks_of_level(data: Seq<u8>, level: int)
    requires
        level >= 1,
        data.len() > 0,
    ensures
        compress::frame_blocks(data, level) == compress::coded_blocks(
            data,
            matcher::all_matches(data, MatchParams::for_level(level)),
            0,
            0,
            Carried {
                hist: OffsetHistory { r0: 1, r1: 4, r2: 8 },
                huf: HufTab { max_bits: 0, lens: Seq::empty() },
            },
        ),
{
}

/// One block after the other: the next holds the sequences that fit.  It is compressed exactly
/// where that is shorter and its bytes are not all the same, and then leaves its last offsets
/// and its literal codes to the blocks behind it.
pub proof fn lemma_next_block(
    data: Seq<u8>,
    seqs: Seq<RawSequence>,
    i: nat,
    pos: int,
    c: Carried,
)
    requires
        matcher::is_parse(data, seqs),
        compress::is_next(seqs, i, pos),
        0 <= pos < data.len(),
    ensures
        ({
            let j = compress::fitting(seqs, i, pos);
            let end = compress::block_end(data, seqs, i, j, pos);
            let last = end == data.len();
            let b = data.subrange(pos, end);
            let parts = compress::block_parts(seqs, i, j, pos);
            let content = block::block_bytes(b, parts, c);
            compress::coded_blocks(data, seqs, i, pos, c) == if j > i && !frame::is_rle(b)
                && content.len() < end - pos {
                frame::coded_block(content, last) + compress::coded_blocks(
                    data,
                    seqs,
                    j,
                    end,
                    Carried {
                        hist: offsets::history_after(parts, c.hist, (j - i) as nat),
                        huf: lit_section::table_after(block::block_lits(b, parts), c.huf),
                    },
                )
            } else {
                frame::plain_block(b, last) + compress::coded_blocks(data, seqs, j, end, c)
            }
        }),
{
    reveal(compress::coded_blocks);
    compress::lemma_block_end(data, seqs, i, pos);
}

/// A compressed block is its literals, in the shortest of the sections for them, and its
/// sequences.
pub proof fn lemma_block_content(b: Seq<u8>, parts: Seq<RawSequence>, c: Carried)
    ensures
        block::block_bytes(b, parts, c).len() == lit_section::literals_section(
            block::block_lits(b, parts),
            c.huf,
        ).len() + seq_section::section_bytes(offsets::resolved(parts, c.hist)).len(),
{
    reveal(block::block_bytes);
}

/// The tables of a section: for literal lengths the predefined one has 64 cells and codes up
/// to 35, for offsets 32 and 28, for match lengths 64 and 52; those made for the codes have up
/// to 512, 256 and 512 cells.
pub proof fn lemma_section_modes(seqs: Seq<EncodedSequence>)
    ensures
        seq_section::ll_mode(seqs) == seq_section::seq_mode(
            seq_section::ll_codes(seqs),
            35,
            6,
            LL_DEFAULT_NORM@,
            9,
        ),
        seq_section::of_mode(seqs) == seq_section::seq_mode(
            seq_section::of_codes(seqs),
            28,
            5,
            OF_DEFAULT_NORM@,
            8,
        ),
        seq_section::ml_mode(seqs) == seq_section::seq_mode(
            seq_section::ml_codes(seqs),
            52,
            6,
            ML_DEFAULT_NORM@,
            9,
        ),
{
}

proof fn lemma_two_used(codes: Seq<u8>, i: int, j: int)
    requires
        0 <= i < codes.len(),
        0 <= j < codes.len(),
        codes[i] != codes[j],
        codes.len() <= u32::MAX,
    ensures
        normalize::used_count(
            seq_section::counts_of(codes),
            seq_section::counts_of(codes).len(),
        ) >= 2,
{
    let counts = seq_section::counts_of(codes);
    let n = codes.len();
    seq_section::lemma_counts(codes);
    lemma_freq_positive(codes, n, i);
    lemma_freq_positive(codes, n, j);
    let a = codes[i] as int;
    let b = codes[j] as int;
    assert(counts[a] > 0 && counts[b] > 0);
    if a < b {
        lemma_used_two(counts, counts.len(), a, b);
    } else {
        lemma_used_two(counts, counts.len(), b, a);
    }
}

/// Weights are compressed wherever two of them differ.
pub proof fn lemma_weights_compressed(w: Seq<u8>, i: int, j: int)
    requires
        0 <= i < w.len() <= 255,
        0 <= j < w.len(),
        w[i] != w[j],
    ensures
        huf_weights::compressed_weights(w) is Some,
{
    lemma_two_used(w, i, j);
}

/// Literals of two or more kinds, none above 128, have a section of Huffman codes: a header, a
/// tree description of half a byte for each symbol below the highest and one byte more, and the
/// streams.
pub proof fn lemma_section_of_codes(lits: Seq<u8>, i: int, j: int)
    requires
        0 <= i < lits.len() <= 128 * 1024,
        0 <= j < lits.len(),
        lits[i] != lits[j],
        forall|k: int| 0 <= k < lits.len() ==> #[trigger] lits[k] <= 128,
    ensures
        ({
            let counts = seq_section::counts_of(lits);
            &&& lit_section::table_for(counts) matches Some(t)
            &&& lit_section::huffman_section(lits) matches Some(x)
            &&& x.len() == lit_section::huffman_header(2, lits.len(), 0).len() + 1 + counts.len()
                / 2 + lit_section::literal_streams(huf_codes::code_table(t), lits).len()
        }),
{
    let counts = seq_section::counts_of(lits);
    lemma_two_used(lits, i, j);
    seq_section::lemma_counts(lits);
    seq_section::lemma_max_of(lits, lits.len());
    crate::huf_optimal::lemma_leaf_count(counts, counts.len());
    lit_section::lemma_table_exists(counts);
    lit_section::lemma_table_for(counts);
    let t = lit_section::table_for(counts)->Some_0;
    let w = lit_section::weights_of(t);
    let desc = lit_section::tree_description(w);
    let streams = lit_section::literal_streams(huf_codes::code_table(t), lits);
    assert forall|k: int| 0 <= k < w.len() implies #[trigger] w[k] <= 12 by {
        assert(0 <= t.lens[k] <= t.max_bits);
    }
    lemma_tree_description_len(w);
    lemma_coded_header_len(2, lits.len(), 0);
    lemma_coded_header_len(2, lits.len(), desc.len() + streams.len());
}

/// Where the codes of the block before have one for each literal, there is a section without a
/// tree.
pub proof fn lemma_section_of_old_codes(lits: Seq<u8>, huf: HufTab)
    requires
        huf.is_code(),
        huf.lens.len() <= 256,
        forall|k: int|
            0 <= k < lits.len() ==> (#[trigger] lits[k]) < huf.lens.len() && huf.lens[lits[k] as int]
                > 0,
    ensures
        lit_section::treeless_section(lits, huf) matches Some(x) && x.len()
            == lit_section::huffman_header(3, lits.len(), 0).len() + lit_section::literal_streams(
            huf_codes::code_table(huf),
            lits,
        ).len(),
{
    let streams = lit_section::literal_streams(huf_codes::code_table(huf), lits);
    lemma_coded_header_len(3, lits.len(), 0);
    lemma_coded_header_len(3, lits.len(), streams.len());
}

} // verus!
