//! Encoding of literals sections.
use crate::bits;
use crate::bytes;
use crate::bytes::push_le;
use crate::error::DecodeError;
use crate::huf_codes;
use crate::huf_codes::{assign_codes, encode_huf_1stream, encode_huf_4streams};
use crate::huf_lengths;
use crate::huf_lengths::{huffman_lengths, longest_code};
use crate::huf_weights;
use crate::huf_weights::encode_weights_fse;
use crate::huffman;
use crate::huffman::HufTab;
use crate::literals;
use crate::literals::{LiteralsSection, LiteralsSectionType};
use crate::seq_section;
use crate::seq_section::count_codes;
use vstd::arithmetic::div_mod::*;
use vstd::arithmetic::power2::*;
use vstd::prelude::*;

verus! {

// ---------------------------------------------------------------------------
// Code tables
// ---------------------------------------------------------------------------

/// The code table for symbols with the given counts.
pub open spec fn table_for(counts: Seq<u32>) -> Option<HufTab> {
    match huf_lengths::code_lengths(counts) {
        None => None,
        Some(lens) => Some(
            HufTab {
                max_bits: huf_lengths::longest(lens, lens.len()),
                lens: huffman::lens_of(lens),
            },
        ),
    }
}

/// A code table is a complete code that has exactly the symbols that occur.
pub proof fn lemma_table_for(counts: Seq<u32>)
    requires
        counts.len() <= 256,
    ensures
        table_for(counts) matches Some(t) ==> {
            &&& t.is_code()
            &&& 2 <= t.lens.len() == counts.len()
            &&& forall|s: int|
                0 <= s < counts.len() ==> (#[trigger] t.lens[s] > 0 <==> counts[s] > 0)
        },
{
    if let Some(t) = table_for(counts) {
        let lens = huf_lengths::code_lengths(counts)->Some_0;
        huf_lengths::lemma_code_lengths(counts);
        huf_lengths::lemma_lengths_complete(counts);
        huf_lengths::lemma_longest(lens, lens.len());
        let top = choose|i: int| 0 <= i < lens.len() && #[trigger] lens[i] == t.max_bits;
        assert(lens[top] <= 11);
        lemma2_to64();
        if t.max_bits == 0 {
            lemma_no_codes(t.lens, t.lens.len());
        }
        assert forall|s: int| 0 <= s < counts.len() implies 0 <= #[trigger] t.lens[s] <= t.max_bits
            && (t.lens[s] > 0 <==> counts[s] > 0) by {
            assert(lens[s] <= 11 && (lens[s] > 0 <==> counts[s] > 0));
            assert(lens[s] <= t.max_bits);
        }
    }
}

/// Two or more symbols have a code table.
pub proof fn lemma_table_exists(counts: Seq<u32>)
    requires
        counts.len() <= 256,
        huf_lengths::leaves(counts, counts.len()).len() >= 2,
    ensures
        table_for(counts) is Some,
{
    huf_lengths::lemma_lengths_complete(counts);
}

/// Symbols that occur more often have codes that are not longer.
pub proof fn lemma_frequent_codes(counts: Seq<u32>, a: int, b: int)
    requires
        counts.len() <= 256,
        0 <= a < counts.len(),
        0 <= b < counts.len(),
        counts[a] > counts[b] > 0,
    ensures
        table_for(counts) matches Some(t) && t.lens[a] <= t.lens[b],
{
    huf_lengths::lemma_code_lengths(counts);
    huf_lengths::lemma_frequent_shorter(counts, a, b);
}

proof fn lemma_no_codes(lens: Seq<int>, n: nat)
    requires
        n <= lens.len(),
        forall|s: int| 0 <= s < lens.len() ==> 0 <= #[trigger] lens[s] <= 0,
    ensures
        huffman::code_space(lens, 0, n) == 0,
    decreases n,
{
    if n > 0 {
        lemma_no_codes(lens, (n - 1) as nat);
        assert(lens[n - 1] <= 0);
    }
}

/// Builds Huffman codes; gives the longest length too.
pub fn build_huffman_codes(counts: &[u32]) -> (r: Option<(Vec<(u32, u8)>, u8)>)
    requires
        counts@.len() <= 256,
    ensures
        match r {
            Some((codes, max_bits)) => {
                &&& table_for(counts@) matches Some(t)
                &&& codes@ == huf_codes::code_table(t)
                &&& max_bits == t.max_bits
                &&& forall|a: int, b: int|
                    0 <= a < counts@.len() && 0 <= b < counts@.len() && counts@[a] > counts@[b] > 0
                        ==> (#[trigger] codes@[a]).1 <= (#[trigger] codes@[b]).1
            },
            None => table_for(counts@) is None,
        },
{
    let lens = match huffman_lengths(counts) {
        Some(l) => l,
        None => {
            return None;
        },
    };
    let max_bits = longest_code(&lens);
    let ghost t = HufTab { max_bits: max_bits as nat, lens: huffman::lens_of(lens@) };
    proof {
        huf_lengths::lemma_code_lengths(counts@);
        huf_lengths::lemma_longest(lens@, lens@.len());
        let top = choose|i: int|
            0 <= i < lens@.len() && #[trigger] lens@[i] == huf_lengths::longest(
                lens@,
                lens@.len(),
            );
        assert(lens@[top] <= 11);
        lemma2_to64();
    }
    proof {
        lemma_table_for(counts@);
    }
    let codes = assign_codes(&lens, max_bits);
    assert forall|a: int, b: int|
        0 <= a < counts@.len() && 0 <= b < counts@.len() && counts@[a] > counts@[b]
            > 0 implies (#[trigger] codes@[a]).1 <= (#[trigger] codes@[b]).1 by {
        lemma_frequent_codes(counts@, a, b);
    }
    Some((codes, max_bits))
}

// ---------------------------------------------------------------------------
// Tree descriptions
// ---------------------------------------------------------------------------

/// The weights of all symbols but the last.
pub open spec fn weights_of(t: HufTab) -> Seq<u8> {
    Seq::new(
        (t.lens.len() - 1) as nat,
        |i: int|
            if t.lens[i] > 0 {
                (t.max_bits + 1 - t.lens[i]) as u8
            } else {
                0u8
            },
    )
}

/// The weights of a code tell the code.
pub proof fn lemma_weights(t: HufTab)
    requires
        t.is_code(),
        2 <= t.lens.len(),
        t.lens[t.lens.len() - 1] > 0,
    ensures
        huffman::huf_table(weights_of(t)) == Ok::<HufTab, DecodeError>(t),
        forall|i: int| 0 <= i < weights_of(t).len() ==> #[trigger] weights_of(t)[i] <= 11,
{
    let w = weights_of(t);
    let max = t.max_bits;
    let n = w.len();
    let last = t.lens[n as int];
    assert forall|i: int| 0 <= i < n implies #[trigger] w[i] <= 11 && w[i] <= max && t.lens[i]
        == huffman::length_of(max, w[i] as int) by {
        assert(0 <= t.lens[i] <= max);
    }
    lemma_weight_sum(w, 0, 0);
    huffman::lemma_weight_space(w, max, t.lens, 0, 0);
    let sum = huffman::code_space(t.lens, max, n);
    let left = pow2((max - last) as nat);
    assert(sum + left == pow2(max));
    lemma_pow2_unfold(max);
    bits::lemma_pow2_monotone((max - last) as nat, (max - 1) as nat);
    lemma_pow2_pos((max - last) as nat);
    bits::lemma_high_bit_unique(sum, (max - 1) as nat);
    lemma_pow2_unfold((max - last + 1) as nat);
    bits::lemma_high_bit_unique(left, (max - last) as nat);
    lemma_pow2_pos((max - 1) as nat);
    assert(huffman::huf_table(w)->Ok_0.lens =~= t.lens);
}

proof fn lemma_weight_sum(w: Seq<u8>, i: nat, sum: nat)
    requires
        i <= w.len(),
        forall|k: int| 0 <= k < w.len() ==> #[trigger] w[k] <= 11,
    ensures
        huffman::sum_weights(w, i, sum) is Ok,
    decreases w.len() - i,
{
    if i < w.len() {
        lemma_weight_sum(w, i + 1, sum + huffman::weight_value(w[i as int] as int));
    }
}

/// Weights written directly, four bits each.
pub open spec fn packed_description(w: Seq<u8>) -> Seq<u8> {
    seq![(w.len() + 127) as u8] + Seq::new(
        (w.len() + 1) / 2,
        |i: int|
            (16 * w[2 * i] + (if 2 * i + 1 < w.len() {
                w[2 * i + 1] as int
            } else {
                0
            })) as u8,
    )
}

/// The weight of a symbol with a code of `len` bits.
pub open spec fn weight_for(len: u8, max_bits: nat) -> u8 {
    if len > 0 {
        (max_bits + 1 - len) as u8
    } else {
        0
    }
}

/// The number of symbols up to the last of the first `n` that has a code, at least one.
pub open spec fn used_end(codes: Seq<(u32, u8)>, n: nat) -> nat
    decreases n,
{
    if n > 1 && codes[n - 1].1 == 0 {
        used_end(codes, (n - 1) as nat)
    } else {
        n
    }
}

/// The weights that describe the codes of the first `n` symbols: those of all symbols
/// before the last one that has a code.
pub open spec fn tree_weights(codes: Seq<(u32, u8)>, max_bits: nat, n: nat) -> Seq<u8> {
    Seq::new((used_end(codes, n) - 1) as nat, |s: int| weight_for(codes[s].1, max_bits))
}

/// The weights fit their field.
pub open spec fn writable(w: Seq<u8>) -> bool {
    &&& 1 <= w.len() <= 255
    &&& forall|i: int| 0 <= i < w.len() ==> #[trigger] w[i] <= 12
}

/// The description of a tree by its weights; empty where there is none.
pub open spec fn tree_description(w: Seq<u8>) -> Seq<u8> {
    if !writable(w) {
        Seq::empty()
    } else if w.len() <= 128 {
        packed_description(w)
    } else {
        match huf_weights::compressed_weights(w) {
            Some(c) => if c.len() < 127 && c.len() < (w.len() + 1) / 2 {
                seq![c.len() as u8] + c
            } else {
                Seq::empty()
            },
            None => Seq::empty(),
        }
    }
}

/// Weights written directly are read back.
proof fn lemma_packed_round_trip(w: Seq<u8>, rest: Seq<u8>)
    requires
        w.len() <= 128,
        writable(w),
    ensures
        huffman::huf_weights(packed_description(w) + rest) == Ok::<(Seq<u8>, nat), DecodeError>(
            (w, packed_description(w).len()),
        ),
{
    let d = packed_description(w);
    let src = d + rest;
    let stream = src.skip(1);
    assert(src[0] == w.len() + 127);
    assert forall|i: int| 0 <= i < w.len() implies #[trigger] huffman::packed_weights(
        stream,
        w.len(),
    )[i] == w[i] by {
        let k = i / 2;
        assert(stream[k] == d[k + 1]);
        assert(w[2 * k] <= 12);
        if 2 * k + 1 < w.len() {
            assert(w[2 * k + 1] <= 12);
        }
    }
    assert(huffman::packed_weights(stream, w.len()) =~= w);
}

/// Compressed weights are read back.
proof fn lemma_compressed_round_trip(w: Seq<u8>, c: Seq<u8>, rest: Seq<u8>)
    requires
        huffman::fse_weights(c + rest, c.len()) == Ok::<Seq<u8>, DecodeError>(w),
        c.len() < 127,
    ensures
        huffman::huf_weights(seq![c.len() as u8] + c + rest) == Ok::<(Seq<u8>, nat), DecodeError>(
            (w, 1 + c.len()),
        ),
{
    let src = seq![c.len() as u8] + c + rest;
    assert(src[0] == c.len());
    assert(src.skip(1) =~= c + rest);
}

/// A tree description is read back, whatever follows it.
pub proof fn lemma_description_round_trip(w: Seq<u8>, rest: Seq<u8>)
    requires
        tree_description(w).len() > 0,
    ensures
        huffman::huf_weights(tree_description(w) + rest) == Ok::<(Seq<u8>, nat), DecodeError>(
            (w, tree_description(w).len()),
        ),
{
    if w.len() <= 128 {
        lemma_packed_round_trip(w, rest);
    } else {
        let c = huf_weights::compressed_weights(w)->Some_0;
        huf_weights::lemma_weights_round_trip(w, rest);
        lemma_compressed_round_trip(w, c, rest);
    }
}

/// Writes weights directly.
fn pack_weights(w: &[u8]) -> (desc: Vec<u8>)
    requires
        w@.len() <= 128,
        writable(w@),
    ensures
        desc@ == packed_description(w@),
{
    let num = w.len();
    let mut desc: Vec<u8> = Vec::new();
    desc.push(num as u8 + 127);
    let mut i: usize = 0;
    while i < (num + 1) / 2
        invariant
            i <= (num + 1) / 2,
            num == w@.len(),
            num <= 128,
            writable(w@),
            desc@.len() == i + 1,
            forall|k: int| 0 <= k <= i ==> #[trigger] desc@[k] == packed_description(w@)[k],
        decreases (num + 1) / 2 - i,
    {
        assert(w@[2 * i] <= 12);
        let w0 = w[2 * i];
        let w1 = if 2 * i + 1 < num {
            w[2 * i + 1]
        } else {
            0
        };
        assert(w1 <= 12);
        desc.push(16 * w0 + w1);
        i = i + 1;
        assert(desc@[i as int] == packed_description(w@)[i as int]);
    }
    assert(desc@ =~= packed_description(w@));
    desc
}

/// The weights that describe a complete code whose last symbol has a code.
proof fn lemma_tree_weights(t: HufTab)
    requires
        t.is_code(),
        2 <= t.lens.len(),
        t.lens[t.lens.len() - 1] > 0,
    ensures
        tree_weights(huf_codes::code_table(t), t.max_bits, t.lens.len()) == weights_of(t),
{
    let codes = huf_codes::code_table(t);
    let n = t.lens.len();
    assert(0 <= t.lens[n - 1] <= t.max_bits);
    assert(codes[n - 1].1 > 0);
    assert forall|s: int| 0 <= s < n - 1 implies #[trigger] tree_weights(codes, t.max_bits, n)[s]
        == weights_of(t)[s] by {
        assert(0 <= t.lens[s] <= t.max_bits);
    }
    assert(tree_weights(codes, t.max_bits, n) =~= weights_of(t));
}

/// Writes the tree description for the codes of the symbols up to `max_sym`; empty where
/// the tree cannot be written.
pub fn encode_huffman_tree(codes: &[(u32, u8)], max_bits: u8, max_sym: usize) -> (desc: Vec<u8>)
    requires
        max_sym < codes@.len(),
        max_sym < 256,
        max_bits < 255,
        forall|s: int| 0 <= s <= max_sym ==> (#[trigger] codes@[s]).1 <= max_bits,
    ensures
        ({
            let w = tree_weights(codes@, max_bits as nat, (max_sym + 1) as nat);
            &&& desc@ == tree_description(w)
            &&& desc@.len() > 0 ==> huffman::huf_weights(desc@) == Ok::<
                (Seq<u8>, nat),
                DecodeError,
            >((w, desc@.len()))
        }),
{
    let ghost w = tree_weights(codes@, max_bits as nat, (max_sym + 1) as nat);
    proof {
        if tree_description(w).len() > 0 {
            lemma_description_round_trip(w, Seq::empty());
            assert(tree_description(w) + Seq::<u8>::empty() =~= tree_description(w));
        }
    }
    let mut end: usize = max_sym + 1;
    while end > 1 && codes[end - 1].1 == 0
        invariant
            1 <= end <= max_sym + 1,
            max_sym < codes@.len(),
            used_end(codes@, (max_sym + 1) as nat) == used_end(codes@, end as nat),
        decreases end,
    {
        end = end - 1;
    }
    let num = end - 1;
    let mut weights: Vec<u8> = Vec::new();
    let mut small = true;
    let mut s: usize = 0;
    while s < num
        invariant
            s <= num <= max_sym,
            num == w.len(),
            max_sym < codes@.len(),
            max_bits < 255,
            w == tree_weights(codes@, max_bits as nat, (max_sym + 1) as nat),
            forall|i: int| 0 <= i <= max_sym ==> (#[trigger] codes@[i]).1 <= max_bits,
            weights@.len() == s,
            forall|i: int| 0 <= i < s ==> #[trigger] weights@[i] == w[i],
            small == (forall|i: int| 0 <= i < s ==> #[trigger] w[i] <= 12),
        decreases num - s,
    {
        assert(codes@[s as int].1 <= max_bits);
        let len = codes[s].1;
        let weight = if len > 0 {
            max_bits + 1 - len
        } else {
            0
        };
        assert(weight == w[s as int]);
        if weight > 12 {
            small = false;
        }
        weights.push(weight);
        s = s + 1;
    }
    assert(weights@ =~= w);
    if num == 0 || !small {
        return Vec::new();
    }
    if num <= 128 {
        return pack_weights(&weights);
    }
    match encode_weights_fse(&weights) {
        Some(compressed) => {
            if compressed.len() < 127 && compressed.len() < (num + 1) / 2 {
                let mut desc: Vec<u8> = Vec::new();
                desc.push(compressed.len() as u8);
                desc.extend_from_slice(&compressed);
                assert(desc@ =~= seq![compressed@.len() as u8] + compressed@);
                desc
            } else {
                Vec::new()
            }
        },
        None => Vec::new(),
    }
}

// ---------------------------------------------------------------------------
// Sections
// ---------------------------------------------------------------------------

/// The header of a section with `regen` literals in `comp` bytes: of type 2 where a tree
/// description comes first, of type 3 without one.
pub open spec fn huffman_header(ty: nat, regen: nat, comp: nat) -> Seq<u8> {
    if regen < 1024 {
        bytes::le_bytes(ty + 16 * regen + 16384 * comp, 3)
    } else if regen < 16384 {
        bytes::le_bytes(ty + 8 + 16 * regen + 262144 * comp, 4)
    } else {
        bytes::le_bytes(ty + 12 + 16 * regen + 4194304 * comp, 5)
    }
}

/// The streams of literals: one, or four from 1024 literals on.
pub open spec fn literal_streams(codes: Seq<(u32, u8)>, lits: Seq<u8>) -> Seq<u8> {
    if lits.len() >= 1024 {
        huf_codes::four_streams_of(codes, lits)
    } else {
        huf_codes::stream_of(codes, lits)
    }
}

/// A section of Huffman codes with a tree description.
pub open spec fn huffman_section(lits: Seq<u8>) -> Option<Seq<u8>> {
    match table_for(seq_section::counts_of(lits)) {
        None => None,
        Some(t) => {
            let desc = tree_description(weights_of(t));
            let streams = literal_streams(huf_codes::code_table(t), lits);
            if desc.len() == 0 {
                None
            } else {
                Some(huffman_header(2, lits.len(), desc.len() + streams.len()) + desc + streams)
            }
        },
    }
}

/// The code table of an earlier block can be used again.
pub open spec fn is_reusable(huf: HufTab, lits: Seq<u8>) -> bool {
    &&& huf.is_code()
    &&& huf.lens.len() <= 256
    &&& huf_codes::has_codes(huf, lits)
}

/// A section of Huffman codes by the code table of an earlier block.
pub open spec fn treeless_section(lits: Seq<u8>, huf: HufTab) -> Option<Seq<u8>> {
    if is_reusable(huf, lits) {
        let streams = literal_streams(huf_codes::code_table(huf), lits);
        Some(huffman_header(3, lits.len(), streams.len()) + streams)
    } else {
        None
    }
}

/// The code table for literals has codes for them.
proof fn lemma_table_fits(lits: Seq<u8>)
    requires
        0 < lits.len() <= 131072,
    ensures
        table_for(seq_section::counts_of(lits)) matches Some(t) ==> {
            &&& t.is_code()
            &&& 2 <= t.lens.len() <= 256
            &&& t.lens[t.lens.len() - 1] > 0
            &&& huf_codes::has_codes(t, lits)
        },
{
    let counts = seq_section::counts_of(lits);
    seq_section::lemma_counts(lits);
    lemma_table_for(counts);
    if let Some(t) = table_for(counts) {
        assert(counts[counts.len() - 1] > 0);
        assert(t.lens[t.lens.len() - 1] > 0);
        assert forall|i: int| 0 <= i < lits.len() implies (#[trigger] lits[i]) < t.lens.len()
            && t.lens[lits[i] as int] > 0 by {
            assert(counts[lits[i] as int] > 0);
        }
    }
}

/// A section of literals as they are.
pub open spec fn raw_section(lits: Seq<u8>) -> Seq<u8> {
    let size = lits.len();
    (if size <= 31 {
        bytes::le_bytes(8 * size, 1)
    } else if size <= 4095 {
        bytes::le_bytes(4 + 16 * size, 2)
    } else {
        bytes::le_bytes(12 + 16 * size, 3)
    }) + lits
}

/// A decoder that finds the section `bytes`, with `rest` after it and `huf` as the code
/// table of an earlier block, gets `lits` and keeps the code table `next`.
pub open spec fn decodes_to(
    bytes: Seq<u8>,
    rest: Seq<u8>,
    huf: HufTab,
    lits: Seq<u8>,
    next: HufTab,
) -> bool {
    &&& literals::literals_header(bytes + rest) matches Ok((section, n))
    &&& n + section.content_len() == bytes.len()
    &&& literals::section_literals(section, huf, bytes.skip(n as int)) == Ok::<
        (Seq<u8>, HufTab),
        DecodeError,
    >((lits, next))
}

/// A short number is read back from the start of the bytes.
proof fn lemma_prefix(v: nat, n: nat, rest: Seq<u8>)
    requires
        1 <= n <= 5,
        v < (if n == 1 {
            256
        } else if n == 2 {
            65536
        } else if n == 3 {
            16777216
        } else if n == 4 {
            4294967296
        } else {
            1099511627776nat
        }),
    ensures
        bytes::le_bytes(v, n).len() == n,
        literals::le_prefix(bytes::le_bytes(v, n) + rest, n) == v,
        (bytes::le_bytes(v, n) + rest)[0] == v % 256,
{
    reveal(literals::le_prefix);
    let raw = bytes::le_bytes(v, n) + rest;
    reveal_with_fuel(bytes::le_bytes, 6);
    assert(raw[0] == v % 256);
    if n >= 2 {
        assert(raw[1] == v / 256 % 256);
    }
    if n >= 3 {
        assert(raw[2] == v / 256 / 256 % 256);
    }
    if n >= 4 {
        assert(raw[3] == v / 256 / 256 / 256 % 256);
    }
    if n >= 5 {
        assert(raw[4] == v / 256 / 256 / 256 / 256 % 256);
    }
}

/// Literals as they are are read back.
pub proof fn lemma_raw_round_trip(lits: Seq<u8>, rest: Seq<u8>, huf: HufTab)
    requires
        lits.len() < 0x10_0000,
    ensures
        decodes_to(raw_section(lits), rest, huf, lits, huf),
{
    reveal(literals::section_literals);
    let size = lits.len();
    let n: nat = if size <= 31 {
        1
    } else if size <= 4095 {
        2
    } else {
        3
    };
    let v = if size <= 31 {
        8 * size
    } else if size <= 4095 {
        4 + 16 * size
    } else {
        12 + 16 * size
    };
    let head = bytes::le_bytes(v, n);
    let b = raw_section(lits);
    lemma_prefix(v, n, lits + rest);
    assert(b + rest =~= head + (lits + rest));
    assert(b.skip(n as int) =~= lits);
    lemma_raw_fields(head + (lits + rest), v, n, size);
}

/// The fields of the header of literals as they are.
proof fn lemma_raw_fields(raw: Seq<u8>, v: nat, n: nat, size: nat)
    requires
        raw.len() >= n,
        raw[0] == v % 256,
        literals::le_prefix(raw, n) == v,
        size < 0x10_0000,
        (n == 1 && v == 8 * size) || (n == 2 && v == 4 + 16 * size) || (n == 3 && v == 12 + 16
            * size),
    ensures
        literals::literals_header(raw) == Ok::<(LiteralsSection, nat), DecodeError>(
            (
                LiteralsSection {
                    regenerated_size: size as u32,
                    compressed_size: None,
                    num_streams: None,
                    ls_type: LiteralsSectionType::Raw,
                },
                n,
            ),
        ),
{
    lemma_raw_format(v, n, size);
    reveal(literals::literals_header);
}

/// What the first byte and the number of the header of literals as they are say.
proof fn lemma_raw_format(v: nat, n: nat, size: nat)
    requires
        (n == 1 && v == 8 * size) || (n == 2 && v == 4 + 16 * size) || (n == 3 && v == 12 + 16
            * size),
    ensures
        (v % 256) as int % 4 == 0,
        literals::header_len_of((v % 256) as int) == n,
        (if n == 1 {
            v / 8
        } else {
            v / 16
        }) == size,
{
    let b = (v % 256) as int;
    if n == 1 {
        let m = size - 32 * (v / 256);
        assert(b == 8 * m);
        assert(b / 4 == 2 * m);
    } else {
        let format: int = if n == 2 {
            1
        } else {
            3
        };
        let m = size - 16 * (v / 256);
        assert(b == 4 * format + 16 * m);
        assert(b / 4 == format + 4 * m);
    }
}

/// The header of a section of Huffman codes is read back.
proof fn lemma_huffman_header(ty: nat, regen: nat, comp: nat, rest: Seq<u8>)
    requires
        ty == 2 || ty == 3,
        comp < regen < 262144,
    ensures
        literals::literals_header(huffman_header(ty, regen, comp) + rest) == Ok::<
            (LiteralsSection, nat),
            DecodeError,
        >(
            (
                LiteralsSection {
                    regenerated_size: regen as u32,
                    compressed_size: Some(comp as u32),
                    num_streams: Some(
                        if regen < 1024 {
                            1u8
                        } else {
                            4u8
                        },
                    ),
                    ls_type: literals::section_type_of(ty as int),
                },
                huffman_header(ty, regen, comp).len(),
            ),
        ),
{
    if regen < 1024 {
        let v = ty + 16 * regen + 16384 * comp;
        lemma_prefix(v, 3, rest);
        lemma_header_fields(bytes::le_bytes(v, 3) + rest, v, ty, 3, 0, 1024, regen, comp);
    } else if regen < 16384 {
        let v = ty + 8 + 16 * regen + 262144 * comp;
        lemma_prefix(v, 4, rest);
        lemma_header_fields(bytes::le_bytes(v, 4) + rest, v, ty, 4, 2, 16384, regen, comp);
    } else {
        let v = ty + 12 + 16 * regen + 4194304 * comp;
        lemma_prefix(v, 5, rest);
        lemma_header_fields(bytes::le_bytes(v, 5) + rest, v, ty, 5, 3, 262144, regen, comp);
    }
}

/// The fields of a header.
proof fn lemma_header_fields(
    raw: Seq<u8>,
    v: nat,
    ty: nat,
    n: nat,
    format: nat,
    unit: nat,
    regen: nat,
    comp: nat,
)
    requires
        raw.len() >= n,
        raw[0] == v % 256,
        literals::le_prefix(raw, n) == v,
        (n == 3 && format == 0 && unit == 1024) || (n == 4 && format == 2 && unit == 16384) || (n
            == 5 && format == 3 && unit == 262144),
        ty == 2 || ty == 3,
        v == ty + 4 * format + 16 * regen + 16 * (unit * comp),
        regen < unit,
        comp < unit,
    ensures
        literals::literals_header(raw) == Ok::<(LiteralsSection, nat), DecodeError>(
            (
                LiteralsSection {
                    regenerated_size: regen as u32,
                    compressed_size: Some(comp as u32),
                    num_streams: Some(
                        if format == 0 {
                            1u8
                        } else {
                            4u8
                        },
                    ),
                    ls_type: literals::section_type_of(ty as int),
                },
                n,
            ),
        ),
{
    let k = regen + unit * comp;
    lemma_huffman_format(v, ty, format, k);
    lemma_fundamental_div_mod_converse(k as int, unit as int, comp as int, regen as int);
    assert(literals::header_len_of(raw[0] as int) == n);
    reveal(literals::literals_header);
}

/// What the first byte and the number of the header of a section of Huffman codes say.
proof fn lemma_huffman_format(v: nat, ty: nat, format: nat, k: nat)
    requires
        v == ty + 4 * format + 16 * k,
        ty < 4,
        format < 4,
    ensures
        (v % 256) as int % 4 == ty,
        ((v % 256) as int / 4) % 4 == format,
        v / 16 == k,
{
    let b = (v % 256) as int;
    let m = k - 16 * (v / 256);
    assert(b == ty + 4 * format + 16 * m);
    assert(b / 4 == format + 4 * m);
}

/// Literals in Huffman codes are read back where that made them shorter.
pub proof fn lemma_huffman_round_trip(lits: Seq<u8>, rest: Seq<u8>, huf: HufTab)
    requires
        0 < lits.len() <= 131072,
        huffman_section(lits) matches Some(b) && b.len() < lits.len(),
    ensures
        decodes_to(
            huffman_section(lits)->Some_0,
            rest,
            huf,
            lits,
            table_for(seq_section::counts_of(lits))->Some_0,
        ),
{
    reveal(literals::section_literals);
    lemma_table_fits(lits);
    let t = table_for(seq_section::counts_of(lits))->Some_0;
    let w = weights_of(t);
    let desc = tree_description(w);
    let codes = huf_codes::code_table(t);
    let streams = literal_streams(codes, lits);
    let comp = desc.len() + streams.len();
    let head = huffman_header(2, lits.len(), comp);
    let b = huffman_section(lits)->Some_0;
    assert(b + rest =~= head + (desc + streams + rest));
    lemma_huffman_header(2, lits.len(), comp, desc + streams + rest);
    let src = b.skip(head.len() as int);
    assert(src =~= desc + streams);
    lemma_weights(t);
    lemma_description_round_trip(w, streams);
    assert(src.skip(desc.len() as int) =~= streams);
    if lits.len() >= 1024 {
        huf_codes::lemma_four_streams_round_trip(t, lits);
    } else {
        huf_codes::lemma_stream_round_trip(t, lits, Seq::empty());
        assert(Seq::<u8>::empty() + lits =~= lits);
    }
}

/// Literals in the Huffman codes of an earlier block are read back where that made them
/// shorter.
pub proof fn lemma_treeless_round_trip(lits: Seq<u8>, rest: Seq<u8>, huf: HufTab)
    requires
        lits.len() <= 131072,
        treeless_section(lits, huf) matches Some(b) && b.len() < lits.len(),
    ensures
        decodes_to(treeless_section(lits, huf)->Some_0, rest, huf, lits, huf),
{
    reveal(literals::section_literals);
    let streams = literal_streams(huf_codes::code_table(huf), lits);
    let head = huffman_header(3, lits.len(), streams.len());
    let b = treeless_section(lits, huf)->Some_0;
    assert(b + rest =~= head + (streams + rest));
    lemma_huffman_header(3, lits.len(), streams.len(), streams + rest);
    assert(b.skip(head.len() as int) =~= streams);
    assert(streams.skip(0) =~= streams);
    if lits.len() >= 1024 {
        huf_codes::lemma_four_streams_round_trip(huf, lits);
    } else {
        huf_codes::lemma_stream_round_trip(huf, lits, Seq::empty());
        assert(Seq::<u8>::empty() + lits =~= lits);
    }
}

/// The codes that an encoder wrote a tree description for, if it wrote one.
pub struct LiteralCodes {
    pub codes: Vec<(u32, u8)>,
    pub table: Ghost<HufTab>,
}

impl LiteralCodes {
    /// The code table that a decoder has.
    pub open spec fn view(&self) -> HufTab {
        self.table@
    }

    pub open spec fn wf(&self) -> bool {
        &&& self.codes@ == huf_codes::code_table(self@)
        &&& self@ == HufTab::empty() || (self@.is_code() && self@.lens.len() <= 256)
    }

    /// No codes yet.
    pub fn none() -> (c: LiteralCodes)
        ensures
            c.wf(),
            c@ == HufTab::empty(),
    {
        let codes: Vec<(u32, u8)> = Vec::new();
        assert(codes@ =~= huf_codes::code_table(HufTab::empty()));
        LiteralCodes { codes, table: Ghost(HufTab::empty()) }
    }

    /// Whether there is a code for each of the literals.
    pub fn has_all(&self, literals: &[u8]) -> (all: bool)
        requires
            self.wf(),
        ensures
            all == huf_codes::has_codes(self@, literals@),
            all && literals@.len() > 0 ==> is_reusable(self@, literals@),
    {
        let mut i: usize = 0;
        while i < literals.len()
            invariant
                self.wf(),
                i <= literals@.len(),
                forall|k: int|
                    0 <= k < i ==> (#[trigger] literals@[k]) < self@.lens.len()
                        && self@.lens[literals@[k] as int] > 0,
            decreases literals@.len() - i,
        {
            let c = literals[i] as usize;
            proof {
                if c < self@.lens.len() {
                    assert(0 <= self@.lens[c as int] <= 11);
                }
            }
            if c >= self.codes.len() || self.codes[c].1 == 0 {
                assert(!((literals@[i as int]) < self@.lens.len()
                    && self@.lens[literals@[i as int] as int] > 0));
                return false;
            }
            i = i + 1;
        }
        proof {
            if literals@.len() > 0 {
                assert(literals@[0] < self@.lens.len());
            }
        }
        true
    }
}

/// Appends the header of a section with Huffman codes.
fn push_huffman_header(out: &mut Vec<u8>, ty: u64, regen: usize, comp: u64)
    requires
        ty <= 3,
        regen <= 131072,
        comp <= 0x8_0000,
    ensures
        final(out)@ == old(out)@ + huffman_header(ty as nat, regen as nat, comp as nat),
{
    if regen < 1024 {
        push_le(out, ty + 16 * regen as u64 + 16384 * comp, 3);
    } else if regen < 16384 {
        push_le(out, ty + 8 + 16 * regen as u64 + 262144 * comp, 4);
    } else {
        push_le(out, ty + 12 + 16 * regen as u64 + 4194304 * comp, 5);
    }
}

/// Writes the streams of literals.
fn encode_streams(literals: &[u8], codes: &[(u32, u8)], Ghost(t): Ghost<HufTab>) -> (bytes: Vec<u8>)
    requires
        0 < literals@.len() <= 131072,
        t.is_code(),
        codes@ == huf_codes::code_table(t),
        huf_codes::has_codes(t, literals@),
    ensures
        bytes@ == literal_streams(codes@, literals@),
        bytes@.len() <= 0x4_0010,
{
    assert forall|i: int| 0 <= i < codes@.len() implies (#[trigger] codes@[i]).1 <= 11 by {
        assert(0 <= t.lens[i] <= t.max_bits);
    }
    assert forall|i: int| 0 <= i < literals@.len() implies #[trigger] literals@[i]
        < codes@.len() by {
        assert(literals@[i] < t.lens.len());
    }
    if literals.len() >= 1024 {
        encode_huf_4streams(literals, codes)
    } else {
        encode_huf_1stream(literals, codes)
    }
}

/// Writes literals in Huffman codes made for them, where there is a code; gives the codes
/// too.
fn encode_with_new_codes(literals: &[u8]) -> (r: Option<(Vec<u8>, LiteralCodes)>)
    requires
        0 < literals@.len() <= 131072,
    ensures
        match r {
            Some((bytes, codes)) => {
                &&& huffman_section(literals@) == Some(bytes@)
                &&& codes.wf()
                &&& table_for(seq_section::counts_of(literals@)) == Some(codes@)
            },
            None => huffman_section(literals@) is None,
        },
{
    let counts = count_codes(literals);
    proof {
        seq_section::lemma_counts(literals@);
        lemma_table_fits(literals@);
    }
    let (codes, max_bits) = match build_huffman_codes(&counts) {
        Some(x) => x,
        None => {
            return None;
        },
    };
    let ghost t = table_for(counts@)->Some_0;
    proof {
        lemma_tree_weights(t);
        assert forall|i: int| 0 <= i < codes@.len() implies (#[trigger] codes@[i]).1
            <= max_bits by {
            assert(t.lens[i] <= t.max_bits);
        }
    }
    let tree_desc = encode_huffman_tree(&codes, max_bits, codes.len() - 1);
    if tree_desc.len() == 0 {
        return None;
    }
    let streams = encode_streams(literals, &codes, Ghost(t));
    proof {
        lemma_description_len(weights_of(t));
    }
    let mut out: Vec<u8> = Vec::new();
    push_huffman_header(
        &mut out,
        2,
        literals.len(),
        tree_desc.len() as u64 + streams.len() as u64,
    );
    out.extend_from_slice(&tree_desc);
    out.extend_from_slice(&streams);
    assert(out@ =~= huffman_section(literals@)->Some_0);
    Some((out, LiteralCodes { codes, table: Ghost(t) }))
}

/// Writes literals in Huffman codes, where there is a code for them.
pub fn encode_literals_huffman(literals: &[u8]) -> (r: Option<Vec<u8>>)
    requires
        0 < literals@.len() <= 131072,
    ensures
        match r {
            Some(bytes) => huffman_section(literals@) == Some(bytes@),
            None => huffman_section(literals@) is None,
        },
{
    match encode_with_new_codes(literals) {
        Some((bytes, _)) => Some(bytes),
        None => None,
    }
}

/// Writes literals in the Huffman codes of an earlier block, where it has codes for them.
pub fn encode_literals_treeless(literals: &[u8], codes: &LiteralCodes) -> (r: Option<Vec<u8>>)
    requires
        0 < literals@.len() <= 131072,
        codes.wf(),
    ensures
        match r {
            Some(bytes) => treeless_section(literals@, codes@) == Some(bytes@),
            None => treeless_section(literals@, codes@) is None,
        },
{
    if !codes.has_all(literals) {
        return None;
    }
    let streams = encode_streams(literals, &codes.codes, Ghost(codes@));
    let mut out: Vec<u8> = Vec::new();
    push_huffman_header(&mut out, 3, literals.len(), streams.len() as u64);
    out.extend_from_slice(&streams);
    assert(out@ =~= treeless_section(literals@, codes@)->Some_0);
    Some(out)
}

proof fn lemma_description_len(w: Seq<u8>)
    requires
        w.len() <= 255,
    ensures
        tree_description(w).len() <= 256,
{
}

/// Appends literals as they are.
pub fn encode_literals_raw(out: &mut Vec<u8>, literals: &[u8])
    requires
        literals@.len() < 0x10_0000,
    ensures
        final(out)@ == old(out)@ + raw_section(literals@),
{
    let size = literals.len();
    if size <= 31 {
        push_le(out, 8 * size as u64, 1);
    } else if size <= 4095 {
        push_le(out, 4 + 16 * size as u64, 2);
    } else {
        push_le(out, 12 + 16 * size as u64, 3);
    }
    out.extend_from_slice(literals);
    assert(out@ =~= old(out)@ + raw_section(literals@));
}

/// The code table of an earlier block is used again: where it has codes for the literals,
/// and a new one would not make the section shorter.
pub open spec fn reuses_codes(lits: Seq<u8>, huf: HufTab) -> bool {
    &&& treeless_section(lits, huf) matches Some(a)
    &&& huffman_section(lits) matches Some(b) ==> a.len() <= b.len()
}

/// The shortest section of Huffman codes.
pub open spec fn shortest_section(lits: Seq<u8>, huf: HufTab) -> Option<Seq<u8>> {
    if reuses_codes(lits, huf) {
        treeless_section(lits, huf)
    } else {
        huffman_section(lits)
    }
}

/// Whether the literals of a block are in Huffman codes: from 64 literals on, where that
/// makes them shorter.
pub open spec fn uses_codes(lits: Seq<u8>, huf: HufTab) -> bool {
    &&& lits.len() >= 64
    &&& shortest_section(lits, huf) matches Some(b)
    &&& b.len() < lits.len()
}

/// The literals section of a block after an earlier one that left the code table `huf`.
pub open spec fn literals_section(lits: Seq<u8>, huf: HufTab) -> Seq<u8> {
    if uses_codes(lits, huf) {
        shortest_section(lits, huf)->Some_0
    } else {
        raw_section(lits)
    }
}

/// The code table that the literals section leaves.
pub open spec fn table_after(lits: Seq<u8>, huf: HufTab) -> HufTab {
    if uses_codes(lits, huf) && !reuses_codes(lits, huf) {
        table_for(seq_section::counts_of(lits))->Some_0
    } else {
        huf
    }
}

/// A literals section is read back, whatever follows it and whatever the code table of an
/// earlier block, and leaves the code table that the next section is written for.
pub proof fn lemma_literals_round_trip(lits: Seq<u8>, rest: Seq<u8>, huf: HufTab)
    requires
        lits.len() <= 131072,
    ensures
        decodes_to(literals_section(lits, huf), rest, huf, lits, table_after(lits, huf)),
{
    if !uses_codes(lits, huf) {
        lemma_raw_round_trip(lits, rest, huf);
    } else if reuses_codes(lits, huf) {
        lemma_treeless_round_trip(lits, rest, huf);
    } else {
        lemma_huffman_round_trip(lits, rest, huf);
    }
}

/// Where the code table of an earlier block has codes for the literals, and a new one would
/// not make the section shorter, the section comes without a tree.
pub proof fn lemma_treeless_mode(lits: Seq<u8>, rest: Seq<u8>, huf: HufTab)
    requires
        lits.len() <= 131072,
        uses_codes(lits, huf),
        reuses_codes(lits, huf),
    ensures
        literals::literals_header(literals_section(lits, huf) + rest) matches Ok((section, _))
            && section.ls_type is Treeless,
        table_after(lits, huf) == huf,
{
    let streams = literal_streams(huf_codes::code_table(huf), lits);
    let head = huffman_header(3, lits.len(), streams.len());
    assert(literals_section(lits, huf) + rest =~= head + (streams + rest));
    lemma_huffman_header(3, lits.len(), streams.len(), streams + rest);
}

/// Appends the literals section of a block after an earlier one with the given codes; gives
/// the codes that take their place, if there are new ones.
pub fn encode_literals(out: &mut Vec<u8>, literals: &[u8], codes: &LiteralCodes) -> (next: Option<
    LiteralCodes,
>)
    requires
        literals@.len() <= 131072,
        codes.wf(),
    ensures
        final(out)@ == old(out)@ + literals_section(literals@, codes@),
        match next {
            Some(c) => c.wf() && c@ == table_after(literals@, codes@),
            None => codes@ == table_after(literals@, codes@),
        },
{
    if literals.len() >= 64 {
        let reused = encode_literals_treeless(literals, codes);
        let fresh = encode_with_new_codes(literals);
        match reused {
            Some(bytes) => {
                let is_shortest = match &fresh {
                    Some((other, _)) => bytes.len() <= other.len(),
                    None => true,
                };
                if is_shortest {
                    if bytes.len() < literals.len() {
                        out.extend_from_slice(&bytes);
                    } else {
                        encode_literals_raw(out, literals);
                    }
                    return None;
                }
            },
            None => {},
        }
        match fresh {
            Some((bytes, new_codes)) => {
                if bytes.len() < literals.len() {
                    out.extend_from_slice(&bytes);
                    return Some(new_codes);
                }
            },
            None => {},
        }
    }
    encode_literals_raw(out, literals);
    None
}

} // verus!
