//! Canonical Huffman codes and the streams written with them.
use crate::bitreader;
use crate::bitreader::RevBits;
use crate::bits;
use crate::bitstream::BackwardBitWriter;
use crate::error::DecodeError;
use crate::fse_table;
use crate::huffman;
use crate::huffman::HufTab;
use crate::literals;
use vstd::arithmetic::div_mod::*;
use vstd::arithmetic::mul::*;
use vstd::arithmetic::power2::*;
use vstd::prelude::*;

verus! {

// ---------------------------------------------------------------------------
// Codes
// ---------------------------------------------------------------------------

/// The code of symbol `s`: the first bits of its part of the code space.
pub open spec fn code_of(t: HufTab, s: int) -> nat {
    t.base(s) / t.span(s)
}

/// The code table of `t`: code and length of each symbol, length 0 for symbols without
/// a code.
pub open spec fn code_table(t: HufTab) -> Seq<(u32, u8)> {
    Seq::new(
        t.lens.len(),
        |s: int|
            if t.lens[s] > 0 {
                (code_of(t, s) as u32, t.lens[s] as u8)
            } else {
                (0u32, 0u8)
            },
    )
}

/// Where the codes of a length start, in code space, is a whole number of such codes.
proof fn lemma_start_aligned(t: HufTab, b: nat) -> (q: nat)
    requires
        t.is_code(),
        b <= t.max_bits,
    ensures
        huffman::code_start(t.lens, t.max_bits, b, t.lens.len()) == q * pow2(
            (t.max_bits - b) as nat,
        ),
        q <= pow2(b),
    decreases b,
{
    let n = t.lens.len();
    if b == 0 {
        huffman::lemma_code_space(t.lens, t.max_bits, n);
        lemma2_to64();
        1
    } else {
        let p = lemma_start_aligned(t, (b - 1) as nat);
        let o = fse_table::occurrences(t.lens, b as int, n);
        let w = pow2((t.max_bits - b) as nat);
        lemma_pow2_unfold((t.max_bits - b + 1) as nat);
        lemma_pow2_pos((t.max_bits - b) as nat);
        lemma_pow2_unfold(b);
        let start = huffman::code_start(t.lens, t.max_bits, b, n);
        assert(start + o * w == p * (2 * w));
        assert(start == (2 * p - o) * w) by (nonlinear_arith)
            requires
                start + o * w == p * (2 * w),
        ;
        assert(2 * p - o >= 0) by (nonlinear_arith)
            requires
                start == (2 * p - o) * w,
                start >= 0,
                w > 0,
        ;
        (2 * p - o) as nat
    }
}

/// The part of a symbol begins at its code.
pub proof fn lemma_code(t: HufTab, s: int)
    requires
        t.is_code(),
        0 <= s < t.lens.len(),
        t.lens[s] > 0,
    ensures
        t.base(s) == code_of(t, s) * t.span(s),
        code_of(t, s) < pow2(t.lens[s] as nat),
        code_of(t, s) * t.span(s) == huffman::code_start(
            t.lens,
            t.max_bits,
            t.lens[s] as nat,
            t.lens.len(),
        ) + fse_table::occurrences(t.lens, t.lens[s], s as nat) * t.span(s),
{
    let q = lemma_start_aligned(t, t.lens[s] as nat);
    let o = fse_table::occurrences(t.lens, t.lens[s], s as nat);
    let w = t.span(s);
    lemma_pow2_pos((t.max_bits - t.lens[s]) as nat);
    assert(q * w + o * w == (q + o) * w) by (nonlinear_arith);
    lemma_mul_is_commutative((q + o) as int, w as int);
    lemma_div_multiples_vanish((q + o) as int, w as int);
    huffman::lemma_owns_range(t, s);
    lemma_pow2_adds(t.lens[s] as nat, (t.max_bits - t.lens[s]) as nat);
    let c = q + o;
    assert(c < pow2(t.lens[s] as nat)) by (nonlinear_arith)
        requires
            c * w + w <= pow2(t.lens[s] as nat) * w,
            w > 0,
    ;
}

/// Counts how many lengths are `b`, for each `b`.
fn count_lengths(lens: &[u8]) -> (bl_count: Vec<u32>)
    requires
        lens@.len() <= 256,
        forall|s: int| 0 <= s < lens@.len() ==> #[trigger] lens@[s] <= 11,
    ensures
        bl_count@.len() == 12,
        forall|b: int|
            0 <= b < 12 ==> #[trigger] bl_count@[b] == fse_table::occurrences(
                huffman::lens_of(lens@),
                b,
                lens@.len(),
            ),
{
    let ghost all = huffman::lens_of(lens@);
    let mut bl_count: Vec<u32> = vec![0u32; 12];
    let mut s: usize = 0;
    while s < lens.len()
        invariant
            s <= lens@.len(),
            lens@.len() <= 256,
            all == huffman::lens_of(lens@),
            forall|s: int| 0 <= s < lens@.len() ==> #[trigger] lens@[s] <= 11,
            bl_count@.len() == 12,
            forall|b: int|
                0 <= b < 12 ==> #[trigger] bl_count@[b] == fse_table::occurrences(all, b, s as nat)
                    && bl_count@[b] <= s,
        decreases lens@.len() - s,
    {
        let b = lens[s] as usize;
        assert(lens@[s as int] <= 11);
        assert(bl_count@[b as int] <= s);
        bl_count[b] = bl_count[b] + 1;
        s = s + 1;
    }
    bl_count
}

/// Gives every symbol its canonical code: the longest codes come first, codes of one
/// length in the order of their symbols.
pub fn assign_codes(lens: &[u8], max_bits: u8) -> (codes: Vec<(u32, u8)>)
    requires
        lens@.len() <= 256,
        (HufTab { max_bits: max_bits as nat, lens: huffman::lens_of(lens@) }).is_code(),
    ensures
        codes@ == code_table(
            HufTab { max_bits: max_bits as nat, lens: huffman::lens_of(lens@) },
        ),
{
    let ghost t = HufTab { max_bits: max_bits as nat, lens: huffman::lens_of(lens@) };
    let ghost n = t.lens.len();
    let max = max_bits as usize;
    assert forall|s: int| 0 <= s < lens@.len() implies #[trigger] lens@[s] <= 11 by {
        assert(t.lens[s] <= t.max_bits);
    }
    let bl_count = count_lengths(lens);
    let mut next_code: Vec<u32> = vec![0u32; 12];
    let mut b: usize = max;
    proof {
        lemma2_to64();
    }
    while b > 1
        invariant
            1 <= b <= max,
            max == t.max_bits,
            max <= 11,
            n == t.lens.len(),
            t.is_code(),
            bl_count@.len() == 12,
            forall|b: int|
                0 <= b < 12 ==> #[trigger] bl_count@[b] == fse_table::occurrences(t.lens, b, n),
            next_code@.len() == 12,
            forall|k: int|
                b <= k <= max ==> (#[trigger] next_code@[k]) * pow2((max - k) as nat)
                    == huffman::code_start(t.lens, t.max_bits, k as nat, n),
            forall|k: int| b <= k <= max ==> #[trigger] next_code@[k] <= 2048,
        decreases b,
    {
        let ghost w = pow2((max - b) as nat);
        let ghost c = next_code@[b as int];
        let ghost o = bl_count@[b as int];
        proof {
            let q = lemma_start_aligned(t, (b - 1) as nat);
            lemma_pow2_unfold((max - b + 1) as nat);
            lemma_pow2_pos((max - b) as nat);
            assert(c * w == huffman::code_start(t.lens, t.max_bits, b as nat, n));
            assert(c * w + o * w == q * (2 * w));
            assert(c + o == 2 * q) by (nonlinear_arith)
                requires
                    c * w + o * w == q * (2 * w),
                    w > 0,
            ;
            lemma2_to64();
            bits::lemma_pow2_monotone((b - 1) as nat, 11);
        }
        next_code[b - 1] = (next_code[b] + bl_count[b]) / 2;
        b = b - 1;
    }
    let mut codes: Vec<(u32, u8)> = Vec::new();
    let mut s: usize = 0;
    proof {
        assert forall|k: int| 1 <= k <= max implies (#[trigger] next_code@[k]) * pow2(
            (max - k) as nat,
        ) == huffman::code_start(t.lens, t.max_bits, k as nat, n) + fse_table::occurrences(
            t.lens,
            k,
            0,
        ) * pow2((max - k) as nat) by {
            assert(fse_table::occurrences(t.lens, k, 0) == 0);
            assert(0 * pow2((max - k) as nat) == 0);
        }
    }
    while s < lens.len()
        invariant
            s <= lens@.len(),
            lens@.len() <= 256,
            t == (HufTab { max_bits: max_bits as nat, lens: huffman::lens_of(lens@) }),
            t.is_code(),
            max == max_bits,
            n == t.lens.len(),
            next_code@.len() == 12,
            forall|k: int|
                1 <= k <= max ==> (#[trigger] next_code@[k]) * pow2((max - k) as nat)
                    == huffman::code_start(t.lens, t.max_bits, k as nat, n)
                    + fse_table::occurrences(t.lens, k, s as nat) * pow2((max - k) as nat),
            forall|k: int| 1 <= k <= max ==> #[trigger] next_code@[k] <= 2048 + s,
            codes@.len() == s,
            forall|i: int| 0 <= i < s ==> #[trigger] codes@[i] == code_table(t)[i],
        decreases lens@.len() - s,
    {
        let l = lens[s];
        assert(t.lens[s as int] == l && l <= max);
        if l > 0 {
            let code = next_code[l as usize];
            proof {
                lemma_code(t, s as int);
                let w = t.span(s as int);
                lemma_pow2_pos((max - l) as nat);
                assert(code * w == code_of(t, s as int) * w);
                assert(code == code_of(t, s as int)) by (nonlinear_arith)
                    requires
                        code * w == code_of(t, s as int) * w,
                        w > 0,
                ;
            }
            codes.push((code, l));
            next_code[l as usize] = code + 1;
            proof {
                assert forall|k: int| 1 <= k <= max implies (#[trigger] next_code@[k]) * pow2(
                    (max - k) as nat,
                ) == huffman::code_start(t.lens, t.max_bits, k as nat, n) + fse_table::occurrences(
                    t.lens,
                    k,
                    (s + 1) as nat,
                ) * pow2((max - k) as nat) by {
                    let o = fse_table::occurrences(t.lens, k, s as nat);
                    let w = pow2((max - k) as nat);
                    if k == l {
                        assert((code + 1) * w == code * w + w) by (nonlinear_arith);
                        assert((o + 1) * w == o * w + w) by (nonlinear_arith);
                    }
                }
            }
        } else {
            codes.push((0, 0));
        }
        s = s + 1;
    }
    assert(codes@ =~= code_table(t));
    codes
}

// ---------------------------------------------------------------------------
// Streams
// ---------------------------------------------------------------------------

/// The bits of `data`: the codes of its bytes, the last byte first.
pub open spec fn data_bits(codes: Seq<(u32, u8)>, data: Seq<u8>) -> Seq<bool>
    decreases data.len(),
{
    if data.len() == 0 {
        Seq::empty()
    } else {
        let c = codes[data[0] as int];
        data_bits(codes, data.drop_first()) + bits::bits_of(c.0 as nat, c.1 as nat)
    }
}

/// Every byte of `data` has a code.
pub open spec fn has_codes(t: HufTab, data: Seq<u8>) -> bool {
    forall|i: int|
        0 <= i < data.len() ==> (#[trigger] data[i]) < t.lens.len() && t.lens[data[i] as int] > 0
}

/// A code is told by the bits that it starts.
proof fn lemma_read_code(t: HufTab, s: int, b: Seq<bool>)
    requires
        t.is_code(),
        0 <= s < t.lens.len(),
        t.lens[s] > 0,
    ensures
        ({
            let r = RevBits {
                bits: b + bits::bits_of(code_of(t, s), t.lens[s] as nat),
                debt: 0,
            };
            &&& t.symbol(r.peek(t.max_bits)) == s
            &&& r.skip(t.lens[s] as nat) == (RevBits { bits: b, debt: 0 })
        }),
{
    let len = t.lens[s] as nat;
    let c = code_of(t, s);
    let r = RevBits { bits: b + bits::bits_of(c, len), debt: 0 };
    lemma_code(t, s);
    bitreader::lemma_read_back(b, c, len);
    lemma_small_mod(c, pow2(len));
    let d = (t.max_bits - len) as nat;
    bitreader::lemma_peek_join(r, len, d);
    let rest = r.skip(len);
    bitreader::lemma_skip(rest, d);
    let idx = r.peek(t.max_bits);
    lemma_mul_is_commutative(c as int, pow2(d) as int);
    assert(t.owns(s, idx as int));
    huffman::lemma_owns_range(t, s);
    huffman::lemma_owner(t, idx);
    huffman::lemma_owns_unique(t, s, t.symbol(idx), idx as int);
}

/// The codes of `data` are decoded to `data`.
pub proof fn lemma_run_round_trip(t: HufTab, data: Seq<u8>, acc: Seq<u8>)
    requires
        t.is_code(),
        has_codes(t, data),
        t.lens.len() <= 256,
    ensures
        huffman::huf_run(t, RevBits { bits: data_bits(code_table(t), data), debt: 0 }, acc) == (
            acc + data,
            RevBits { bits: Seq::empty(), debt: 0 },
        ),
    decreases data.len(),
{
    let codes = code_table(t);
    let r = RevBits { bits: data_bits(codes, data), debt: 0 };
    if data.len() == 0 {
        assert(acc + data =~= acc);
    } else {
        let s = data[0] as int;
        let rest = data.drop_first();
        assert(s < t.lens.len() && t.lens[s] > 0);
        lemma_code(t, s);
        lemma2_to64();
        bits::lemma_pow2_monotone(t.lens[s] as nat, 11);
        lemma_read_code(t, s, data_bits(codes, rest));
        assert forall|i: int| 0 <= i < rest.len() implies (#[trigger] rest[i]) < t.lens.len()
            && t.lens[rest[i] as int] > 0 by {
            assert(rest[i] == data[i + 1]);
        }
        lemma_run_round_trip(t, rest, acc.push(data[0]));
        assert(acc.push(data[0]) + rest =~= acc + data);
    }
}

/// The stream of `data`.
#[verifier::opaque]
pub open spec fn stream_of(codes: Seq<(u32, u8)>, data: Seq<u8>) -> Seq<u8> {
    bits::backward_stream(data_bits(codes, data))
}

/// A stream is decoded to what it was made from, to the last bit.
pub proof fn lemma_stream_round_trip(t: HufTab, data: Seq<u8>, acc: Seq<u8>)
    requires
        t.is_code(),
        has_codes(t, data),
        t.lens.len() <= 256,
    ensures
        huffman::huf_stream(t, stream_of(code_table(t), data), acc) == Ok::<
            (Seq<u8>, int),
            DecodeError,
        >((acc + data, 0)),
        literals::exact_stream(t, stream_of(code_table(t), data), acc) == Ok::<
            Seq<u8>,
            DecodeError,
        >(acc + data),
{
    reveal(literals::exact_stream);
    reveal(stream_of);
    lemma_run_round_trip(t, data, acc);
    bitreader::lemma_stream_start(data_bits(code_table(t), data));
}

proof fn lemma_data_bits_len(codes: Seq<(u32, u8)>, data: Seq<u8>)
    requires
        forall|i: int| 0 <= i < codes.len() ==> (#[trigger] codes[i]).1 <= 11,
        forall|i: int| 0 <= i < data.len() ==> #[trigger] data[i] < codes.len(),
    ensures
        data_bits(codes, data).len() <= 11 * data.len(),
    decreases data.len(),
{
    if data.len() > 0 {
        assert forall|i: int| 0 <= i < data.drop_first().len() implies #[trigger] data.drop_first()[i]
            < codes.len() by {
            assert(data.drop_first()[i] == data[i + 1]);
        }
        assert(data[0] < codes.len());
        lemma_data_bits_len(codes, data.drop_first());
    }
}

/// Writes one stream.
pub fn encode_huf_1stream(data: &[u8], codes: &[(u32, u8)]) -> (bytes: Vec<u8>)
    requires
        forall|i: int| 0 <= i < codes@.len() ==> (#[trigger] codes@[i]).1 <= 11,
        forall|i: int| 0 <= i < data@.len() ==> #[trigger] data@[i] < codes@.len(),
    ensures
        bytes@ == stream_of(codes@, data@),
        8 * bytes@.len() <= 11 * data@.len() + 8,
{
    let mut bw = BackwardBitWriter::new();
    let mut i: usize = data.len();
    assert(data@.skip(data@.len() as int) =~= Seq::empty());
    while i > 0
        invariant
            i <= data@.len(),
            forall|i: int| 0 <= i < codes@.len() ==> (#[trigger] codes@[i]).1 <= 11,
            forall|i: int| 0 <= i < data@.len() ==> #[trigger] data@[i] < codes@.len(),
            bw.wf(),
            bw.pending() < 8,
            bw.bits() == data_bits(codes@, data@.skip(i as int)),
        decreases i,
    {
        i = i - 1;
        let (code, nb) = codes[data[i] as usize];
        proof {
            let tail = data@.skip(i as int);
            assert(tail.drop_first() =~= data@.skip(i as int + 1));
            assert(tail[0] == data@[i as int]);
        }
        bw.add_bits(code as u64, nb as u32);
        bw.flush_bits();
    }
    proof {
        assert(data@.skip(0) =~= data@);
        reveal(stream_of);
        lemma_data_bits_len(codes@, data@);
        bits::lemma_pack(data_bits(codes@, data@) + seq![true]);
    }
    bw.finish()
}

/// Where part `k` of the four parts of `n` bytes begins: the first three are of one
/// size.
pub open spec fn quarter(n: nat, k: nat) -> nat {
    let q = (n + 3) / 4;
    let at = if k == 0 {
        0
    } else if k == 1 {
        q
    } else if k == 2 {
        2 * q
    } else if k == 3 {
        3 * q
    } else {
        n
    };
    if at < n {
        at
    } else {
        n
    }
}

/// A number below 65536 in two bytes.
pub open spec fn le16(v: nat) -> Seq<u8> {
    seq![(v % 256) as u8, (v / 256 % 256) as u8]
}

/// Stream `k` of four.
pub open spec fn quarter_stream(codes: Seq<(u32, u8)>, data: Seq<u8>, k: nat) -> Seq<u8> {
    stream_of(
        codes,
        data.subrange(quarter(data.len(), k) as int, quarter(data.len(), k + 1) as int),
    )
}

/// Four streams after a table of the sizes of the first three.
pub open spec fn four_streams_of(codes: Seq<(u32, u8)>, data: Seq<u8>) -> Seq<u8> {
    let s0 = quarter_stream(codes, data, 0);
    let s1 = quarter_stream(codes, data, 1);
    let s2 = quarter_stream(codes, data, 2);
    let s3 = quarter_stream(codes, data, 3);
    le16(s0.len()) + le16(s1.len()) + le16(s2.len()) + s0 + s1 + s2 + s3
}

/// Writes four streams.
pub fn encode_huf_4streams(data: &[u8], codes: &[(u32, u8)]) -> (out: Vec<u8>)
    requires
        data@.len() <= 131072,
        forall|i: int| 0 <= i < codes@.len() ==> (#[trigger] codes@[i]).1 <= 11,
        forall|i: int| 0 <= i < data@.len() ==> #[trigger] data@[i] < codes@.len(),
    ensures
        out@ == four_streams_of(codes@, data@),
        out@.len() <= 2 * data@.len() + 10,
{
    let n = data.len();
    let q = (n + 3) / 4;
    let e1 = if q < n {
        q
    } else {
        n
    };
    let e2 = if 2 * q < n {
        2 * q
    } else {
        n
    };
    let e3 = if 3 * q < n {
        3 * q
    } else {
        n
    };
    assert(quarter(n as nat, 0) == 0);
    assert(quarter(n as nat, 1) == e1);
    assert(quarter(n as nat, 2) == e2);
    assert(quarter(n as nat, 3) == e3);
    assert(quarter(n as nat, 4) == n);
    let c0 = encode_huf_1stream(&data[0..e1], codes);
    let c1 = encode_huf_1stream(&data[e1..e2], codes);
    let c2 = encode_huf_1stream(&data[e2..e3], codes);
    let c3 = encode_huf_1stream(&data[e3..n], codes);
    let mut out: Vec<u8> = Vec::new();
    push_le16(&mut out, c0.len());
    push_le16(&mut out, c1.len());
    push_le16(&mut out, c2.len());
    assert(out@ =~= le16(c0@.len()) + le16(c1@.len()) + le16(c2@.len()));
    out.extend_from_slice(&c0);
    out.extend_from_slice(&c1);
    out.extend_from_slice(&c2);
    out.extend_from_slice(&c3);
    out
}

fn push_le16(out: &mut Vec<u8>, v: usize)
    ensures
        final(out)@ == old(out)@ + le16(v as nat),
{
    out.push((v % 256) as u8);
    out.push((v / 256 % 256) as u8);
    assert(out@ =~= old(out)@ + le16(v as nat));
}

/// Where four streams stand.
proof fn lemma_four_layout(s0: Seq<u8>, s1: Seq<u8>, s2: Seq<u8>, s3: Seq<u8>)
    requires
        s0.len() < 65536,
        s1.len() < 65536,
        s2.len() < 65536,
    ensures
        ({
            let src = le16(s0.len()) + le16(s1.len()) + le16(s2.len()) + s0 + s1 + s2 + s3;
            let j1 = src[0] + 256 * src[1];
            let j2 = j1 + src[2] + 256 * src[3];
            let j3 = j2 + src[4] + 256 * src[5];
            let body = src.skip(6);
            &&& src.len() >= 6
            &&& 0 <= j1 <= j2 <= j3 <= body.len()
            &&& body.subrange(0, j1) == s0
            &&& body.subrange(j1, j2) == s1
            &&& body.subrange(j2, j3) == s2
            &&& body.subrange(j3, body.len() as int) == s3
        }),
{
    let src = le16(s0.len()) + le16(s1.len()) + le16(s2.len()) + s0 + s1 + s2 + s3;
    assert(src[0] == le16(s0.len())[0] && src[1] == le16(s0.len())[1]);
    assert(src[2] == le16(s1.len())[0] && src[3] == le16(s1.len())[1]);
    assert(src[4] == le16(s2.len())[0] && src[5] == le16(s2.len())[1]);
    let j1 = src[0] + 256 * src[1];
    let j2 = j1 + src[2] + 256 * src[3];
    let j3 = j2 + src[4] + 256 * src[5];
    assert(j1 == s0.len());
    assert(j2 == s0.len() + s1.len());
    assert(j3 == s0.len() + s1.len() + s2.len());
    let body = src.skip(6);
    assert(body =~= s0 + s1 + s2 + s3);
    assert(body.subrange(0, j1) =~= s0);
    assert(body.subrange(j1, j2) =~= s1);
    assert(body.subrange(j2, j3) =~= s2);
    assert(body.subrange(j3, body.len() as int) =~= s3);
}

/// Four streams are decoded one after the other.
proof fn lemma_four_decoded(t: HufTab, s: Seq<Seq<u8>>, d: Seq<Seq<u8>>)
    requires
        s.len() == 4,
        d.len() == 4,
        s[0].len() < 65536,
        s[1].len() < 65536,
        s[2].len() < 65536,
        literals::exact_stream(t, s[0], Seq::empty()) == Ok::<Seq<u8>, DecodeError>(d[0]),
        literals::exact_stream(t, s[1], d[0]) == Ok::<Seq<u8>, DecodeError>(d[1]),
        literals::exact_stream(t, s[2], d[1]) == Ok::<Seq<u8>, DecodeError>(d[2]),
        literals::exact_stream(t, s[3], d[2]) == Ok::<Seq<u8>, DecodeError>(d[3]),
    ensures
        literals::four_streams(
            t,
            le16(s[0].len()) + le16(s[1].len()) + le16(s[2].len()) + s[0] + s[1] + s[2] + s[3],
        ) == Ok::<Seq<u8>, DecodeError>(d[3]),
{
    lemma_four_layout(s[0], s[1], s[2], s[3]);
}

/// The stream of a part of `data` is decoded behind what comes before it.
proof fn lemma_part_decoded(t: HufTab, data: Seq<u8>, a: int, b: int)
    requires
        t.is_code(),
        t.lens.len() <= 256,
        has_codes(t, data),
        0 <= a <= b <= data.len(),
        b - a <= 32768,
    ensures
        stream_of(code_table(t), data.subrange(a, b)).len() < 65536,
        literals::exact_stream(
            t,
            stream_of(code_table(t), data.subrange(a, b)),
            data.take(a),
        ) == Ok::<Seq<u8>, DecodeError>(data.take(b)),
{
    lemma_part(t, data, a, b);
    lemma_stream_round_trip(t, data.subrange(a, b), data.take(a));
    assert(data.take(a) + data.subrange(a, b) =~= data.take(b));
}

/// Four streams are decoded to what they were made from.
pub proof fn lemma_four_streams_round_trip(t: HufTab, data: Seq<u8>)
    requires
        t.is_code(),
        has_codes(t, data),
        t.lens.len() <= 256,
        data.len() <= 131072,
    ensures
        literals::four_streams(t, four_streams_of(code_table(t), data)) == Ok::<
            Seq<u8>,
            DecodeError,
        >(data),
{
    let codes = code_table(t);
    let n = data.len();
    let q1 = quarter(n, 1) as int;
    let q2 = quarter(n, 2) as int;
    let q3 = quarter(n, 3) as int;
    assert(quarter(n, 0) == 0);
    assert(quarter(n, 4) == n);
    lemma_part_decoded(t, data, 0, q1);
    lemma_part_decoded(t, data, q1, q2);
    lemma_part_decoded(t, data, q2, q3);
    lemma_part_decoded(t, data, q3, n as int);
    assert(data.take(0) =~= Seq::empty());
    assert(data.take(n as int) =~= data);
    lemma_four_decoded(
        t,
        seq![
            quarter_stream(codes, data, 0),
            quarter_stream(codes, data, 1),
            quarter_stream(codes, data, 2),
            quarter_stream(codes, data, 3),
        ],
        seq![data.take(q1), data.take(q2), data.take(q3), data],
    );
}

/// The stream of a quarter is short enough for its size to be written.
proof fn lemma_part(t: HufTab, data: Seq<u8>, a: int, b: int)
    requires
        t.is_code(),
        t.lens.len() <= 256,
        has_codes(t, data),
        0 <= a <= b <= data.len(),
        b - a <= 32768,
    ensures
        has_codes(t, data.subrange(a, b)),
        stream_of(code_table(t), data.subrange(a, b)).len() < 65536,
{
    let part = data.subrange(a, b);
    let codes = code_table(t);
    assert forall|i: int| 0 <= i < part.len() implies (#[trigger] part[i]) < t.lens.len()
        && t.lens[part[i] as int] > 0 by {
        assert(part[i] == data[a + i]);
    }
    assert forall|i: int| 0 <= i < codes.len() implies (#[trigger] codes[i]).1 <= 11 by {
        assert(t.lens[i] <= t.max_bits);
    }
    reveal(stream_of);
    lemma_data_bits_len(codes, part);
    bits::lemma_pack(data_bits(codes, part) + seq![true]);
}

} // verus!
