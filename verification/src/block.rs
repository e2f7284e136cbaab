//! Encoding of blocks.
use crate::decode;
use crate::decode::DecState;
use crate::error::DecodeError;
use crate::execute;
use crate::execute::{OffsetHistory, Progress};
use crate::huffman::HufTab;
use crate::lit_section;
use crate::lit_section::{encode_literals, LiteralCodes};
use crate::literals;
use crate::matcher;
use crate::matcher::{find_matches, MatchParams, RawSequence};
use crate::offsets;
use crate::offsets::resolve_repeat_offsets;
use crate::seq_section;
use crate::seq_section::{encode_sequences_section, EncodedSequence};
use crate::sequences;
use crate::sequences::{CodeTabs, Sequence};
use vstd::arithmetic::div_mod::*;
use vstd::prelude::*;

verus! {

// ---------------------------------------------------------------------------
// Content of compressed blocks
// ---------------------------------------------------------------------------

/// The literals of the first `n` sequences of the block `b`.
pub open spec fn lits_before(b: Seq<u8>, parts: Seq<RawSequence>, n: nat) -> Seq<u8>
    decreases n,
{
    if n == 0 {
        Seq::empty()
    } else {
        let at = matcher::made_by(parts, (n - 1) as nat);
        lits_before(b, parts, (n - 1) as nat) + b.subrange(
            at as int,
            at + parts[n - 1].ll,
        )
    }
}

/// All literals of the block `b`: those of its sequences, and what follows the last.
pub open spec fn block_lits(b: Seq<u8>, parts: Seq<RawSequence>) -> Seq<u8> {
    lits_before(b, parts, parts.len()) + b.skip(matcher::made_by(parts, parts.len()) as int)
}

/// What a block takes over from the blocks before it: the last offsets, and the code table
/// of their literals.
pub struct Carried {
    pub hist: OffsetHistory,
    pub huf: HufTab,
}

impl Carried {
    /// At the start of a frame.
    pub open spec fn initial() -> Carried {
        Carried { hist: OffsetHistory::initial(), huf: HufTab::empty() }
    }

    /// What a decoder has of it.
    pub open spec fn of_state(st: DecState) -> Carried {
        Carried { hist: st.hist, huf: st.huf }
    }
}

/// The content of the compressed block `b`.
#[verifier::opaque]
pub open spec fn block_bytes(b: Seq<u8>, parts: Seq<RawSequence>, c: Carried) -> Seq<u8> {
    lit_section::literals_section(block_lits(b, parts), c.huf) + seq_section::section_bytes(
        offsets::resolved(parts, c.hist),
    )
}

/// What the compressed block `b` leaves for the blocks after it.
pub open spec fn carried_after(b: Seq<u8>, parts: Seq<RawSequence>, c: Carried) -> Carried {
    Carried {
        hist: offsets::history_after(parts, c.hist, parts.len()),
        huf: lit_section::table_after(block_lits(b, parts), c.huf),
    }
}

/// The sequences describe the bytes of `data` from `pos` to `end`, but for a rest of
/// literals.
#[verifier::opaque]
pub open spec fn is_block_parse(
    data: Seq<u8>,
    pos: int,
    end: int,
    parts: Seq<RawSequence>,
) -> bool {
    &&& 0 <= pos <= end <= data.len()
    &&& end - pos <= 131072
    &&& pos + matcher::made_by(parts, parts.len()) <= end
    &&& forall|k: int|
        0 <= k < parts.len() ==> matcher::is_sequence(
            data,
            #[trigger] parts[k],
            pos + matcher::match_at(parts, k),
        )
}

pub proof fn lemma_made_monotone(parts: Seq<RawSequence>, a: nat, b: nat)
    requires
        a <= b,
    ensures
        matcher::made_by(parts, a) <= matcher::made_by(parts, b),
    decreases b,
{
    if a < b {
        lemma_made_monotone(parts, a, (b - 1) as nat);
    }
}

/// Every sequence makes at least four bytes.
proof fn lemma_made_at_least(parts: Seq<RawSequence>, n: nat)
    requires
        n <= parts.len(),
        forall|k: int| 0 <= k < parts.len() ==> (#[trigger] parts[k]).ml >= 4,
    ensures
        matcher::made_by(parts, n) >= 4 * n,
    decreases n,
{
    if n > 0 {
        lemma_made_at_least(parts, (n - 1) as nat);
        assert(parts[n - 1].ml >= 4);
    }
}

/// A match repeats with the period of its offset.
proof fn lemma_period(data: Seq<u8>, m: int, off: int, n: int, i: int)
    requires
        matcher::is_match(data, m, off, n),
        0 <= i < n,
    ensures
        data[m + i] == data[m - off + i % off],
    decreases i,
{
    assert(data[m + i] == data[m + i - off]);
    if i >= off {
        lemma_period(data, m, off, n, i - off);
        lemma_mod_sub_multiples_vanish(i, off);
    } else {
        lemma_small_mod(i as nat, off as nat);
    }
}

/// What a decoder copies for a match is the match.
proof fn lemma_match_bytes(data: Seq<u8>, m: int, off: int, n: int)
    requires
        matcher::is_match(data, m, off, n),
    ensures
        data.take(m) + execute::match_bytes(data.take(m), off, n as nat) == data.take(m + n),
{
    let out = data.take(m);
    let all = out + execute::match_bytes(out, off, n as nat);
    assert forall|i: int| 0 <= i < m + n implies all[i] == data.take(m + n)[i] by {
        if i >= m {
            lemma_period(data, m, off, n, i - m);
            lemma_mod_bound(i - m, off);
        }
    }
    assert(all =~= data.take(m + n));
}

proof fn lemma_lits_before_len(b: Seq<u8>, parts: Seq<RawSequence>, n: nat)
    requires
        n <= parts.len(),
        matcher::made_by(parts, n) <= b.len(),
    ensures
        lits_before(b, parts, n).len() <= matcher::made_by(parts, n),
    decreases n,
{
    if n > 0 {
        lemma_lits_before_len(b, parts, (n - 1) as nat);
    }
}

/// The literals of sequence `k` stand where the decoder looks for them.
proof fn lemma_lits_of(b: Seq<u8>, parts: Seq<RawSequence>, k: nat, n: nat)
    requires
        k < n <= parts.len(),
        matcher::made_by(parts, parts.len()) <= b.len(),
    ensures
        ({
            let u = lits_before(b, parts, k).len() as int;
            let ll = parts[k as int].ll as int;
            let at = matcher::made_by(parts, k) as int;
            &&& u + ll <= lits_before(b, parts, n).len()
            &&& lits_before(b, parts, n).subrange(u, u + ll) == b.subrange(at, at + ll)
            &&& lits_before(b, parts, k + 1).len() == u + ll
        }),
    decreases n,
{
    lemma_made_monotone(parts, k + 1, parts.len());
    lemma_made_monotone(parts, n, parts.len());
    let u = lits_before(b, parts, k).len() as int;
    let ll = parts[k as int].ll as int;
    let at = matcher::made_by(parts, k) as int;
    if n == k + 1 {
        assert(lits_before(b, parts, n).subrange(u, u + ll) =~= b.subrange(at, at + ll));
    } else {
        lemma_lits_of(b, parts, k, (n - 1) as nat);
        assert(lits_before(b, parts, n).subrange(u, u + ll) =~= lits_before(
            b,
            parts,
            (n - 1) as nat,
        ).subrange(u, u + ll));
    }
}

/// Where a decoder stands after `k` sequences.
spec fn progress(
    data: Seq<u8>,
    pos: int,
    b: Seq<u8>,
    parts: Seq<RawSequence>,
    h: OffsetHistory,
    k: nat,
) -> Progress {
    Progress {
        out: data.take(pos + matcher::made_by(parts, k)),
        hist: offsets::history_after(parts, h, k),
        used: lits_before(b, parts, k).len(),
        made: matcher::made_by(parts, k),
    }
}

/// Sequences as a decoder gets them.
pub open spec fn decoded(seqs: Seq<EncodedSequence>) -> Seq<Sequence> {
    Seq::new(seqs.len(), |i: int| seqs[i].sequence())
}

/// The literals of sequence `k` lead up to its match.
proof fn lemma_copy(data: Seq<u8>, pos: int, end: int, parts: Seq<RawSequence>, k: nat)
    requires
        is_block_parse(data, pos, end, parts),
        k < parts.len(),
    ensures
        ({
            let b = data.subrange(pos, end);
            let lits = block_lits(b, parts);
            let u = lits_before(b, parts, k).len() as int;
            let ll = parts[k as int].ll as int;
            let at = pos + matcher::made_by(parts, k);
            &&& u + ll <= lits.len()
            &&& data.take(at) + lits.subrange(u, u + ll) == data.take(at + ll)
            &&& lits_before(b, parts, k + 1).len() == u + ll
        }),
{
    reveal(is_block_parse);
    let b = data.subrange(pos, end);
    let lits = block_lits(b, parts);
    let u = lits_before(b, parts, k).len() as int;
    let ll = parts[k as int].ll as int;
    let at = matcher::made_by(parts, k) as int;
    lemma_made_monotone(parts, k + 1, parts.len());
    lemma_lits_of(b, parts, k, parts.len());
    lemma_within(
        lits_before(b, parts, parts.len()),
        b.skip(matcher::made_by(parts, parts.len()) as int),
        u,
        u + ll,
    );
    lemma_take_more(data, pos, end, at, ll);
}

proof fn lemma_within(a: Seq<u8>, b: Seq<u8>, i: int, j: int)
    requires
        0 <= i <= j <= a.len(),
    ensures
        (a + b).subrange(i, j) == a.subrange(i, j),
{
    assert((a + b).subrange(i, j) =~= a.subrange(i, j));
}

proof fn lemma_take_more(data: Seq<u8>, pos: int, end: int, at: int, n: int)
    requires
        0 <= pos <= end <= data.len(),
        0 <= at,
        0 <= n,
        pos + at + n <= end,
    ensures
        data.take(pos + at) + data.subrange(pos, end).subrange(at, at + n) == data.take(
            pos + at + n,
        ),
{
    assert(data.take(pos + at) + data.subrange(pos, end).subrange(at, at + n) =~= data.take(
        pos + at + n,
    ));
}

/// A decoder gets the lengths and the offset of sequence `k` back.
proof fn lemma_fields(
    data: Seq<u8>,
    pos: int,
    end: int,
    parts: Seq<RawSequence>,
    h: OffsetHistory,
    k: nat,
)
    requires
        is_block_parse(data, pos, end, parts),
        k < parts.len(),
    ensures
        ({
            let e = decoded(offsets::resolved(parts, h))[k as int];
            let s = parts[k as int];
            let hk = offsets::history_after(parts, h, k);
            &&& e.ll == s.ll
            &&& e.ml == s.ml
            &&& hk.offset(e.of as nat, e.ll as nat) == s.off
            &&& offsets::history_after(parts, h, k + 1) == hk.after(e.of as nat, e.ll as nat)
            &&& matcher::is_match(
                data,
                pos + matcher::match_at(parts, k as int),
                s.off as int,
                s.ml as int,
            )
            &&& matcher::match_at(parts, k as int) == matcher::made_by(parts, k) + s.ll
            &&& matcher::made_by(parts, k + 1) <= 131072
        }),
{
    reveal(is_block_parse);
    let s = parts[k as int];
    let hk = offsets::history_after(parts, h, k);
    lemma_made_monotone(parts, k + 1, parts.len());
    assert(matcher::is_sequence(data, s, pos + matcher::match_at(parts, k as int)));
    offsets::lemma_offset_round_trip(hk, s.off as nat, s.ll as nat);
}

/// A decoder executes sequence `k` of a block.
proof fn lemma_run_one(
    data: Seq<u8>,
    pos: int,
    end: int,
    parts: Seq<RawSequence>,
    h: OffsetHistory,
    k: nat,
)
    requires
        is_block_parse(data, pos, end, parts),
        k < parts.len(),
    ensures
        ({
            let b = data.subrange(pos, end);
            execute::run_sequence(
                decoded(offsets::resolved(parts, h))[k as int],
                block_lits(b, parts),
                progress(data, pos, b, parts, h, k),
            ) == Ok::<Progress, DecodeError>(progress(data, pos, b, parts, h, k + 1))
        }),
{
    let b = data.subrange(pos, end);
    let s = parts[k as int];
    let m = pos + matcher::made_by(parts, k) + s.ll;
    lemma_fields(data, pos, end, parts, h, k);
    lemma_copy(data, pos, end, parts, k);
    lemma_match_bytes(data, m, s.off as int, s.ml as int);
    lemma_one(
        decoded(offsets::resolved(parts, h))[k as int],
        block_lits(b, parts),
        progress(data, pos, b, parts, h, k),
        progress(data, pos, b, parts, h, k + 1),
        data.take(m),
        s.off as nat,
    );
}

/// How a sequence is executed, step by step.
proof fn lemma_one(
    e: Sequence,
    lits: Seq<u8>,
    p: Progress,
    q: Progress,
    out1: Seq<u8>,
    off: nat,
)
    requires
        p.used + e.ll <= lits.len(),
        p.out + lits.subrange(p.used as int, p.used + e.ll) == out1,
        p.hist.offset(e.of as nat, e.ll as nat) == off,
        1 <= off <= out1.len(),
        p.made + e.ml + e.ll <= u32::MAX,
        q.out == out1 + execute::match_bytes(out1, off as int, e.ml as nat),
        q.hist == p.hist.after(e.of as nat, e.ll as nat),
        q.used == p.used + e.ll,
        q.made == p.made + e.ml + e.ll,
    ensures
        execute::run_sequence(e, lits, p) == Ok::<Progress, DecodeError>(q),
{
}

/// A decoder executes the sequences of a block from the `k`th on.
proof fn lemma_run_from(
    data: Seq<u8>,
    pos: int,
    end: int,
    parts: Seq<RawSequence>,
    h: OffsetHistory,
    k: nat,
)
    requires
        is_block_parse(data, pos, end, parts),
        k <= parts.len(),
    ensures
        ({
            let b = data.subrange(pos, end);
            execute::run_sequences(
                decoded(offsets::resolved(parts, h)),
                k,
                block_lits(b, parts),
                progress(data, pos, b, parts, h, k),
            ) == Ok::<Progress, DecodeError>(progress(data, pos, b, parts, h, parts.len()))
        }),
    decreases parts.len() - k,
{
    if k < parts.len() {
        lemma_run_one(data, pos, end, parts, h, k);
        lemma_run_from(data, pos, end, parts, h, k + 1);
    }
}

/// A decoder executes the sequences of a block, and has its bytes.
proof fn lemma_run_block(
    data: Seq<u8>,
    pos: int,
    end: int,
    parts: Seq<RawSequence>,
    h: OffsetHistory,
)
    requires
        is_block_parse(data, pos, end, parts),
    ensures
        execute::run_block(
            decoded(offsets::resolved(parts, h)),
            block_lits(data.subrange(pos, end), parts),
            data.take(pos),
            h,
        ) == Ok::<(Seq<u8>, OffsetHistory), DecodeError>(
            (data.take(end), offsets::history_after(parts, h, parts.len())),
        ),
{
    reveal(is_block_parse);
    let b = data.subrange(pos, end);
    let n = parts.len();
    let made = matcher::made_by(parts, n) as int;
    lemma_run_from(data, pos, end, parts, h, 0);
    lemma_lits_before_len(b, parts, n);
    lemma_tail(data, pos, end, lits_before(b, parts, n), made);
    lemma_finish(
        decoded(offsets::resolved(parts, h)),
        block_lits(b, parts),
        progress(data, pos, b, parts, h, 0),
        progress(data, pos, b, parts, h, n),
    );
}

/// The literals behind the last sequence lead up to the end.
proof fn lemma_tail(data: Seq<u8>, pos: int, end: int, before: Seq<u8>, made: int)
    requires
        0 <= pos <= end <= data.len(),
        0 <= made <= end - pos,
    ensures
        data.take(pos + made) + (before + data.subrange(pos, end).skip(made)).skip(
            before.len() as int,
        ) == data.take(end),
        (before + data.subrange(pos, end).skip(made)).len() == before.len() + (end - pos - made),
{
    let rest = data.subrange(pos, end).skip(made);
    assert((before + rest).skip(before.len() as int) =~= rest);
    assert(data.take(pos + made) + rest =~= data.take(end));
}

/// How the sequences of a block are executed, from first to last.
proof fn lemma_finish(seqs: Seq<Sequence>, lits: Seq<u8>, p: Progress, q: Progress)
    requires
        p.used == 0,
        p.made == 0,
        execute::run_sequences(seqs, 0, lits, p) == Ok::<Progress, DecodeError>(q),
        q.made + lits.len() - q.used <= u32::MAX,
    ensures
        execute::run_block(seqs, lits, p.out, p.hist) == Ok::<
            (Seq<u8>, OffsetHistory),
            DecodeError,
        >((q.out + lits.skip(q.used as int), q.hist)),
{
    assert(p == (Progress { out: p.out, hist: p.hist, used: 0, made: 0 }));
}

/// What an encoder knows of the sequences of a block.
proof fn lemma_resolved(
    data: Seq<u8>,
    pos: int,
    end: int,
    parts: Seq<RawSequence>,
    h: OffsetHistory,
)
    requires
        is_block_parse(data, pos, end, parts),
    ensures
        seq_section::all_wf(offsets::resolved(parts, h)),
        parts.len() < 98048,
        forall|k: int|
            0 <= k < parts.len() ==> (#[trigger] parts[k]).ll < 131072 && 1 <= parts[k].off
                <= 0x100_0000,
        block_lits(data.subrange(pos, end), parts).len() <= 131072,
{
    reveal(is_block_parse);
    let b = data.subrange(pos, end);
    let all = offsets::resolved(parts, h);
    assert forall|k: int| 0 <= k < parts.len() implies (#[trigger] parts[k]).ll < 131072 && 1
        <= parts[k].off <= 0x100_0000 && parts[k].ml >= 4 by {
        lemma_made_monotone(parts, (k + 1) as nat, parts.len());
        assert(matcher::is_sequence(data, parts[k], pos + matcher::match_at(parts, k)));
    }
    assert forall|k: int| 0 <= k < all.len() implies (#[trigger] all[k]).wf() by {
        assert(parts[k].ll < 131072);
        assert(matcher::is_sequence(data, parts[k], pos + matcher::match_at(parts, k)));
        offsets::lemma_offset_round_trip(
            offsets::history_after(parts, h, k as nat),
            parts[k].off as nat,
            parts[k].ll as nat,
        );
    }
    lemma_made_at_least(parts, parts.len());
    lemma_lits_before_len(b, parts, parts.len());
}

/// A compressed block is decoded to the bytes that it was made from.
pub proof fn lemma_block_round_trip(
    data: Seq<u8>,
    pos: int,
    end: int,
    parts: Seq<RawSequence>,
    st: DecState,
)
    requires
        is_block_parse(data, pos, end, parts),
        parts.len() > 0,
        st.out == data.take(pos),
    ensures
        decode::compressed_block(
            st,
            block_bytes(data.subrange(pos, end), parts, Carried::of_state(st)),
        ) matches Ok(next) && next.out == data.take(end) && Carried::of_state(next)
            == carried_after(data.subrange(pos, end), parts, Carried::of_state(st)),
{
    reveal(block_bytes);
    let b = data.subrange(pos, end);
    let lits = block_lits(b, parts);
    let seqs = offsets::resolved(parts, st.hist);
    lemma_resolved(data, pos, end, parts, st.hist);
    lemma_run_block(data, pos, end, parts, st.hist);
    lit_section::lemma_literals_round_trip(lits, seq_section::section_bytes(seqs), st.huf);
    seq_section::lemma_section_round_trip(seqs, st.fse);
    assert(decoded(seqs) =~= Seq::new(seqs.len(), |i: int| seqs[i].sequence()));
    lemma_two_sections(
        st,
        lit_section::literals_section(lits, st.huf),
        seq_section::section_bytes(seqs),
        lits,
        lit_section::table_after(lits, st.huf),
        decoded(seqs),
        seq_section::section_tabs(seqs),
        data.take(end),
        offsets::history_after(parts, st.hist, parts.len()),
    );
}

/// How a compressed block is decoded, step by step.
proof fn lemma_two_sections(
    st: DecState,
    head: Seq<u8>,
    tail: Seq<u8>,
    lits: Seq<u8>,
    huf: HufTab,
    seqs: Seq<Sequence>,
    tabs: CodeTabs,
    out: Seq<u8>,
    hist: OffsetHistory,
)
    requires
        lit_section::decodes_to(head, tail, st.huf, lits, huf),
        sequences::sequences_header(tail) matches Ok(h) && h.num > 0
            && sequences::section_sequences(st.fse, h.modes, h.num, tail.skip(h.len as int)) == Ok::<
            (Seq<Sequence>, CodeTabs),
            DecodeError,
        >((seqs, tabs)),
        execute::run_block(seqs, lits, st.out, st.hist) == Ok::<
            (Seq<u8>, OffsetHistory),
            DecodeError,
        >((out, hist)),
    ensures
        decode::compressed_block(st, head + tail) == Ok::<DecState, DecodeError>(
            DecState { huf, fse: tabs, hist, out },
        ),
{
    reveal(decode::compressed_block);
    let raw = head + tail;
    let (section, n) = literals::literals_header(raw)->Ok_0;
    let rest = raw.skip(n as int);
    let len = section.content_len() as int;
    assert(rest.take(len) =~= head.skip(n as int));
    assert(rest.skip(len) =~= tail);
}

/// Collects the literals of a block.
fn collect_literals(b: &[u8], parts: &[RawSequence]) -> (literals: Vec<u8>)
    requires
        matcher::made_by(parts@, parts@.len()) <= b@.len(),
    ensures
        literals@ == block_lits(b@, parts@),
{
    let mut literals: Vec<u8> = Vec::new();
    let mut pos: usize = 0;
    let mut i: usize = 0;
    while i < parts.len()
        invariant
            i <= parts@.len(),
            matcher::made_by(parts@, parts@.len()) <= b@.len(),
            pos == matcher::made_by(parts@, i as nat),
            pos <= b@.len(),
            literals@ == lits_before(b@, parts@, i as nat),
        decreases parts@.len() - i,
    {
        proof {
            lemma_made_monotone(parts@, (i + 1) as nat, parts@.len());
        }
        let have = b.len();
        let seq = parts[i];
        literals.extend_from_slice(&b[pos..pos + seq.ll]);
        pos = pos + seq.ll + seq.ml as usize;
        i = i + 1;
    }
    let rest = &b[pos..b.len()];
    assert(rest@ =~= b@.skip(pos as int));
    literals.extend_from_slice(rest);
    literals
}

/// Encodes the content of a compressed block of `data` from `pos` to `end`, after blocks that
/// left the offset history `rep` and the literal codes `codes`; updates the offset history,
/// and gives the codes that take the place of `codes`, if there are new ones.
pub fn encode_block_content(
    data: &[u8],
    pos: usize,
    end: usize,
    parts: &[RawSequence],
    rep: &mut [u32; 3],
    codes: &LiteralCodes,
) -> (r: (Vec<u8>, Option<LiteralCodes>))
    requires
        is_block_parse(data@, pos as int, end as int, parts@),
        parts@.len() > 0,
        codes.wf(),
    ensures
        ({
            let b = data@.subrange(pos as int, end as int);
            let c = Carried { hist: OffsetHistory::of_seq(old(rep)@), huf: codes@ };
            let next = carried_after(b, parts@, c);
            &&& r.0@ == block_bytes(b, parts@, c)
            &&& OffsetHistory::of_seq(final(rep)@) == next.hist
            &&& match r.1 {
                Some(k) => k.wf() && k@ == next.huf,
                None => codes@ == next.huf,
            }
        }),
{
    reveal(block_bytes);
    reveal(is_block_parse);
    let ghost h = OffsetHistory::of_seq(rep@);
    let b = &data[pos..end];
    proof {
        lemma_resolved(data@, pos as int, end as int, parts@, h);
    }
    let literals = collect_literals(b, parts);
    let encoded = resolve_repeat_offsets(parts, rep);
    let mut block: Vec<u8> = Vec::new();
    let next_codes = encode_literals(&mut block, &literals, codes);
    encode_sequences_section(&mut block, &encoded);
    assert(block@ =~= block_bytes(b@, parts@, Carried { hist: h, huf: codes@ }));
    (block, next_codes)
}

/// The sequences of a whole block describe it.
proof fn lemma_whole_block(data: Seq<u8>, params: MatchParams)
    requires
        data.len() <= 131072,
    ensures
        is_block_parse(
            data,
            0,
            data.len() as int,
            matcher::all_matches(data, params),
        ),
        data.subrange(0, data.len() as int) == data,
{
    reveal(is_block_parse);
    reveal(matcher::is_parse);
    let seqs = matcher::all_matches(data, params);
    matcher::lemma_all_matches(data, params);
    assert forall|k: int| 0 <= k < seqs.len() implies matcher::is_sequence(
        data,
        #[trigger] seqs[k],
        0 + matcher::match_at(seqs, k),
    ) by {
        assert(matcher::is_sequence(data, seqs[k], matcher::match_at(seqs, k)));
    }
    assert(data.subrange(0, data.len() as int) =~= data);
}

/// The content of a compressed block that holds all of `data` is decoded to `data` at the
/// start of a frame.
pub proof fn lemma_whole_block_round_trip(data: Seq<u8>, params: MatchParams)
    requires
        data.len() <= 131072,
        matcher::all_matches(data, params).len() > 0,
    ensures
        decode::compressed_block(
            DecState::initial(),
            block_bytes(data, matcher::all_matches(data, params), Carried::initial()),
        ) matches Ok(next) && next.out == data,
{
    lemma_whole_block(data, params);
    assert(data.take(0) =~= Seq::empty());
    assert(data.take(data.len() as int) =~= data);
    lemma_block_round_trip(
        data,
        0,
        data.len() as int,
        matcher::all_matches(data, params),
        DecState::initial(),
    );
}

/// Encodes the content of a compressed block that holds all of `data`; there is none where
/// no match is found.
pub fn compress_block(data: &[u8], params: &MatchParams) -> (r: Option<Vec<u8>>)
    requires
        data@.len() <= 131072,
        params.hash_log <= 31,
    ensures
        match r {
            Some(block) => {
                &&& matcher::all_matches(data@, *params).len() > 0
                &&& block@ == block_bytes(
                    data@,
                    matcher::all_matches(data@, *params),
                    Carried::initial(),
                )
            },
            None => matcher::all_matches(data@, *params).len() == 0,
        },
{
    let sequences = find_matches(data, params);
    if sequences.len() == 0 {
        return None;
    }
    proof {
        lemma_whole_block(data@, *params);
    }
    let mut rep: [u32; 3] = [1, 4, 8];
    assert(OffsetHistory::of_seq(rep@) == OffsetHistory::initial());
    let codes = LiteralCodes::none();
    let (content, _) = encode_block_content(
        data,
        0,
        data.len(),
        &sequences,
        &mut rep,
        &codes,
    );
    Some(content)
}

} // verus!
