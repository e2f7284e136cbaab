//! Zstandard frame compressor.
use crate::block;
use crate::block::{encode_block_content, Carried};
use crate::constants::ZSTD_BLOCKSIZE_MAX;
use crate::decode;
use crate::decode::DecState;
use crate::error::DecodeError;
use crate::execute::OffsetHistory;
use crate::lit_section::LiteralCodes;
use crate::frame;
use crate::frame::{
    is_rle_block, write_compressed_block, write_frame_header, write_plain_block, write_raw_block,
};
use crate::frames;
use crate::matcher;
use crate::matcher::{find_matches, MatchParams, RawSequence};
use vstd::prelude::*;

verus! {

// ---------------------------------------------------------------------------
// What a frame holds
// ---------------------------------------------------------------------------

/// `n`, but at most the size of a block.
pub open spec fn at_most_block(n: int) -> int {
    if n < 131072 {
        n
    } else {
        131072
    }
}

/// `data` from `pos` on in blocks that are not compressed.
pub open spec fn plain_blocks(data: Seq<u8>, pos: int) -> Seq<u8>
    decreases data.len() - pos,
{
    if pos >= data.len() {
        Seq::empty()
    } else {
        let end = pos + at_most_block(data.len() - pos);
        frame::plain_block(data.subrange(pos, end), end == data.len()) + plain_blocks(data, end)
    }
}

/// The first sequence from `i` on that does not fit a block from `pos` on.
pub open spec fn fitting(seqs: Seq<RawSequence>, i: nat, pos: int) -> nat
    decreases seqs.len() - i,
{
    if i < seqs.len() && matcher::made_by(seqs, i + 1) - pos <= 131072 {
        fitting(seqs, i + 1, pos)
    } else {
        i
    }
}

/// Where a block from `pos` on ends that begins with sequence `i` and ends before
/// sequence `j`.  Without a sequence it holds literals only.  With the last sequence it
/// holds the literals after it too, if they fit.  Before a sequence that no block can hold
/// it takes as many of its literals as fit.
pub open spec fn block_end(
    data: Seq<u8>,
    seqs: Seq<RawSequence>,
    i: nat,
    j: nat,
    pos: int,
) -> int {
    if i == j {
        if i < seqs.len() {
            pos + at_most_block(matcher::match_at(seqs, i as int) - pos)
        } else {
            pos + at_most_block(data.len() - pos)
        }
    } else if j == seqs.len() && data.len() - pos <= 131072 {
        data.len() as int
    } else if j < seqs.len() && seqs[j as int].ll + seqs[j as int].ml > 131072 {
        pos + at_most_block(matcher::match_at(seqs, j as int) - pos)
    } else {
        matcher::made_by(seqs, j) as int
    }
}

/// The sequences from `i` to `j`; some literals of the first may be in earlier blocks.
pub open spec fn block_parts(seqs: Seq<RawSequence>, i: nat, j: nat, pos: int) -> Seq<RawSequence> {
    Seq::new(
        (j - i) as nat,
        |k: int|
            if k == 0 {
                RawSequence {
                    ll: (matcher::match_at(seqs, i as int) - pos) as usize,
                    ..seqs[i as int]
                }
            } else {
                seqs[i + k]
            },
    )
}

/// Whether a block is compressed: only where that makes it shorter, and not where all
/// its bytes are the same.
pub open spec fn is_coded(b: Seq<u8>, parts: Seq<RawSequence>, c: Carried) -> bool {
    &&& parts.len() > 0
    &&& !frame::is_rle(b)
    &&& block::block_bytes(b, parts, c).len() < b.len()
}

/// The block `b`.
pub open spec fn any_block(
    b: Seq<u8>,
    parts: Seq<RawSequence>,
    c: Carried,
    last: bool,
) -> Seq<u8> {
    if is_coded(b, parts, c) {
        frame::coded_block(block::block_bytes(b, parts, c), last)
    } else {
        frame::plain_block(b, last)
    }
}

/// What the block `b` leaves for the blocks after it: only compressed blocks change it.
pub open spec fn carried_after_block(b: Seq<u8>, parts: Seq<RawSequence>, c: Carried) -> Carried {
    if is_coded(b, parts, c) {
        block::carried_after(b, parts, c)
    } else {
        c
    }
}

/// What a decoder in state `st` knows after the block `b`.
pub open spec fn state_after_block(b: Seq<u8>, parts: Seq<RawSequence>, st: DecState) -> DecState {
    if is_coded(b, parts, Carried::of_state(st)) {
        decode::compressed_block(st, block::block_bytes(b, parts, Carried::of_state(st)))->Ok_0
    } else {
        DecState { out: st.out + b, ..st }
    }
}

/// `data` from `pos` on in blocks, where sequence `i` is the next.
#[verifier::opaque]
pub open spec fn coded_blocks(
    data: Seq<u8>,
    seqs: Seq<RawSequence>,
    i: nat,
    pos: int,
    c: Carried,
) -> Seq<u8>
    decreases data.len() - pos,
{
    let j = fitting(seqs, i, pos);
    let end = block_end(data, seqs, i, j, pos);
    if pos >= data.len() || end <= pos || end > data.len() {
        Seq::empty()
    } else {
        let b = data.subrange(pos, end);
        let parts = block_parts(seqs, i, j, pos);
        any_block(b, parts, c, end == data.len()) + coded_blocks(
            data,
            seqs,
            j,
            end,
            carried_after_block(b, parts, c),
        )
    }
}

/// The blocks of a frame.
pub open spec fn frame_blocks(data: Seq<u8>, level: int) -> Seq<u8> {
    if data.len() == 0 {
        frame::raw_block(data, true)
    } else if level <= 0 {
        plain_blocks(data, 0)
    } else {
        coded_blocks(
            data,
            matcher::all_matches(data, MatchParams::for_level(level)),
            0,
            0,
            Carried::initial(),
        )
    }
}

/// The frame for `data`.
pub open spec fn compressed(data: Seq<u8>, level: int) -> Seq<u8> {
    frame::header_for(data.len()) + frame_blocks(data, level)
}

// ---------------------------------------------------------------------------
// Sequences of a block
// ---------------------------------------------------------------------------

/// Sequence `i` is the next one at `pos`.
pub open spec fn is_next(seqs: Seq<RawSequence>, i: nat, pos: int) -> bool {
    &&& i <= seqs.len()
    &&& matcher::made_by(seqs, i) <= pos
    &&& i < seqs.len() ==> pos <= matcher::match_at(seqs, i as int)
}

proof fn lemma_fitting(seqs: Seq<RawSequence>, i: nat, pos: int)
    requires
        i <= seqs.len(),
    ensures
        i <= fitting(seqs, i, pos) <= seqs.len(),
        i < fitting(seqs, i, pos) ==> matcher::made_by(seqs, fitting(seqs, i, pos)) - pos <= 131072,
        fitting(seqs, i, pos) < seqs.len() ==> matcher::made_by(
            seqs,
            fitting(seqs, i, pos) + 1,
        ) - pos > 131072,
    decreases seqs.len() - i,
{
    if i < seqs.len() && matcher::made_by(seqs, i + 1) - pos <= 131072 {
        lemma_fitting(seqs, i + 1, pos);
    }
}

proof fn lemma_parts_made(seqs: Seq<RawSequence>, i: nat, j: nat, pos: int, k: nat)
    requires
        is_next(seqs, i, pos),
        i < j <= seqs.len(),
        1 <= k <= j - i,
        matcher::match_at(seqs, i as int) - pos <= usize::MAX,
    ensures
        matcher::made_by(block_parts(seqs, i, j, pos), k) == matcher::made_by(seqs, i + k) - pos,
    decreases k,
{
    let parts = block_parts(seqs, i, j, pos);
    if k == 1 {
        assert(matcher::made_by(parts, 0) == 0);
    } else {
        lemma_parts_made(seqs, i, j, pos, (k - 1) as nat);
    }
}

/// The sequences of a block describe its bytes.
proof fn lemma_parts(data: Seq<u8>, seqs: Seq<RawSequence>, i: nat, j: nat, pos: int, end: int)
    requires
        matcher::is_parse(data, seqs),
        is_next(seqs, i, pos),
        i < j <= seqs.len(),
        0 <= pos,
        matcher::made_by(seqs, j) <= end <= data.len(),
        end - pos <= 131072,
        data.len() <= usize::MAX,
    ensures
        block::is_block_parse(data, pos, end, block_parts(seqs, i, j, pos)),
{
    reveal(matcher::is_parse);
    reveal(block::is_block_parse);
    let parts = block_parts(seqs, i, j, pos);
    block::lemma_made_monotone(seqs, i + 1, j);
    assert(matcher::match_at(seqs, i as int) - pos <= data.len());
    lemma_parts_made(seqs, i, j, pos, (j - i) as nat);
    assert forall|k: int| 0 <= k < parts.len() implies matcher::is_sequence(
        data,
        #[trigger] parts[k],
        pos + matcher::match_at(parts, k),
    ) by {
        assert(matcher::is_sequence(data, seqs[i + k], matcher::match_at(seqs, i + k)));
        if k > 0 {
            lemma_parts_made(seqs, i, j, pos, k as nat);
        } else {
            assert(matcher::made_by(parts, 0) == 0);
        }
    }
}

/// Every block holds at least one byte and at most 128 KiB, and leaves the match of the
/// next sequence whole.
pub proof fn lemma_block_end(data: Seq<u8>, seqs: Seq<RawSequence>, i: nat, pos: int)
    requires
        matcher::is_parse(data, seqs),
        is_next(seqs, i, pos),
        0 <= pos < data.len(),
    ensures
        ({
            let j = fitting(seqs, i, pos);
            let end = block_end(data, seqs, i, j, pos);
            &&& i <= j <= seqs.len()
            &&& pos < end <= data.len()
            &&& end - pos <= 131072
            &&& is_next(seqs, j, end)
            &&& i < j ==> matcher::made_by(seqs, j) <= end
        }),
{
    reveal(matcher::is_parse);
    let j = fitting(seqs, i, pos);
    let n = seqs.len();
    lemma_fitting(seqs, i, pos);
    block::lemma_made_monotone(seqs, j, n);
    if i < n {
        assert(matcher::is_sequence(data, seqs[i as int], matcher::match_at(seqs, i as int)));
        block::lemma_made_monotone(seqs, i + 1, n);
    }
    if i < j {
        block::lemma_made_monotone(seqs, i + 1, j);
        if j < n {
            assert(matcher::is_sequence(data, seqs[j as int], matcher::match_at(seqs, j as int)));
            block::lemma_made_monotone(seqs, j + 1, n);
        }
    }
}

/// A block that is neither full nor the last holds, together with the next one, more than
/// 128 KiB.
proof fn lemma_two_blocks(data: Seq<u8>, seqs: Seq<RawSequence>, i: nat, pos: int)
    requires
        matcher::is_parse(data, seqs),
        is_next(seqs, i, pos),
        0 <= pos < data.len(),
    ensures
        ({
            let j = fitting(seqs, i, pos);
            let end = block_end(data, seqs, i, j, pos);
            let j2 = fitting(seqs, j, end);
            let end2 = block_end(data, seqs, j, j2, end);
            end - pos == 131072 || end == data.len() || end2 - pos > 131072
        }),
{
    let n = seqs.len();
    let j = fitting(seqs, i, pos);
    let end = block_end(data, seqs, i, j, pos);
    lemma_block_end(data, seqs, i, pos);
    lemma_fitting(seqs, i, pos);
    if end - pos != 131072 && end != data.len() {
        let j2 = fitting(seqs, j, end);
        lemma_block_end(data, seqs, j, end);
        lemma_fitting(seqs, j, end);
        if j < n {
            reveal(matcher::is_parse);
            assert(matcher::is_sequence(data, seqs[j as int], matcher::match_at(seqs, j as int)));
            assert(matcher::made_by(seqs, j + 1) - end <= 131072);
            assert(j2 >= j + 1) by {
                lemma_fitting(seqs, j + 1, end);
            }
            block::lemma_made_monotone(seqs, j + 1, j2);
        }
    }
}

/// One block, and the rest.
proof fn lemma_coded_blocks_step(
    data: Seq<u8>,
    seqs: Seq<RawSequence>,
    i: nat,
    pos: int,
    c: Carried,
)
    requires
        matcher::is_parse(data, seqs),
        is_next(seqs, i, pos),
        0 <= pos < data.len(),
    ensures
        ({
            let j = fitting(seqs, i, pos);
            let end = block_end(data, seqs, i, j, pos);
            let b = data.subrange(pos, end);
            let parts = block_parts(seqs, i, j, pos);
            coded_blocks(data, seqs, i, pos, c) == any_block(b, parts, c, end == data.len())
                + coded_blocks(data, seqs, j, end, carried_after_block(b, parts, c))
        }),
{
    reveal(coded_blocks);
    lemma_block_end(data, seqs, i, pos);
}

proof fn lemma_coded_blocks_end(
    data: Seq<u8>,
    seqs: Seq<RawSequence>,
    i: nat,
    pos: int,
    c: Carried,
)
    requires
        pos >= data.len(),
    ensures
        coded_blocks(data, seqs, i, pos, c) == Seq::<u8>::empty(),
{
    reveal(coded_blocks);
}

/// A block takes at most three bytes more than what it holds.
pub proof fn lemma_block_len(b: Seq<u8>, parts: Seq<RawSequence>, c: Carried, last: bool)
    requires
        b.len() <= 131072,
    ensures
        any_block(b, parts, c, last).len() <= b.len() + 3,
        frame::is_rle(b) ==> any_block(b, parts, c, last).len() == 4,
{
    frame::lemma_block_head_len(last, 0, b.len());
    frame::lemma_block_head_len(last, 1, b.len());
    frame::lemma_block_head_len(last, 2, block::block_bytes(b, parts, c).len());
}

// ---------------------------------------------------------------------------
// Laws
// ---------------------------------------------------------------------------

/// A decoder in state `st` reads a block.
proof fn lemma_any_block(data: Seq<u8>, pos: int, end: int, parts: Seq<RawSequence>, st: DecState)
    requires
        0 <= pos <= end <= data.len(),
        end - pos <= 131072,
        parts.len() > 0 ==> block::is_block_parse(data, pos, end, parts),
        st.out == data.take(pos),
    ensures
        ({
            let b = data.subrange(pos, end);
            let last = end == data.len();
            let next = state_after_block(b, parts, st);
            &&& frame::is_block(any_block(b, parts, Carried::of_state(st), last), last, st, next)
            &&& frame::leads(any_block(b, parts, Carried::of_state(st), last), last, st, next)
            &&& next.out == data.take(end)
            &&& Carried::of_state(next) == carried_after_block(b, parts, Carried::of_state(st))
        }),
{
    let b = data.subrange(pos, end);
    let last = end == data.len();
    if is_coded(b, parts, Carried::of_state(st)) {
        block::lemma_block_round_trip(data, pos, end, parts, st);
        frame::lemma_coded_block(
            block::block_bytes(b, parts, Carried::of_state(st)),
            last,
            st,
            state_after_block(b, parts, st),
        );
    } else {
        frame::lemma_plain_block(b, last, st);
        assert(data.take(pos) + b =~= data.take(end));
    }
}

/// A decoder reads blocks that are not compressed.
proof fn lemma_plain_blocks(data: Seq<u8>, pos: int, st: DecState)
    requires
        0 <= pos < data.len(),
        st.out == data.take(pos),
    ensures
        frame::leads(plain_blocks(data, pos), true, st, DecState { out: data, ..st }),
    decreases data.len() - pos,
{
    let end = pos + at_most_block(data.len() - pos);
    let b = data.subrange(pos, end);
    let last = end == data.len();
    let next = DecState { out: st.out + b, ..st };
    frame::lemma_plain_block(b, last, st);
    assert(data.take(pos) + b =~= data.take(end));
    if last {
        assert(plain_blocks(data, end) =~= Seq::empty());
        assert(plain_blocks(data, pos) =~= frame::plain_block(b, last));
        assert(data.take(end) =~= data);
    } else {
        lemma_plain_blocks(data, end, next);
        frame::lemma_leads_join(
            frame::plain_block(b, last),
            plain_blocks(data, end),
            true,
            st,
            next,
            DecState { out: data, ..st },
        );
    }
}

/// A decoder reads blocks with the given sequences; gives its last state.
proof fn lemma_coded_blocks(
    data: Seq<u8>,
    seqs: Seq<RawSequence>,
    i: nat,
    pos: int,
    st: DecState,
) -> (last: DecState)
    requires
        matcher::is_parse(data, seqs),
        is_next(seqs, i, pos),
        0 <= pos < data.len() <= usize::MAX,
        st.out == data.take(pos),
    ensures
        frame::leads(coded_blocks(data, seqs, i, pos, Carried::of_state(st)), true, st, last),
        last.out == data,
    decreases data.len() - pos,
{
    let j = fitting(seqs, i, pos);
    let end = block_end(data, seqs, i, j, pos);
    let b = data.subrange(pos, end);
    let parts = block_parts(seqs, i, j, pos);
    let is_last = end == data.len();
    let blk = any_block(b, parts, Carried::of_state(st), is_last);
    let next = state_after_block(b, parts, st);
    lemma_block_end(data, seqs, i, pos);
    lemma_coded_blocks_step(data, seqs, i, pos, Carried::of_state(st));
    if i < j {
        lemma_parts(data, seqs, i, j, pos, end);
    }
    lemma_any_block(data, pos, end, parts, st);
    if is_last {
        lemma_coded_blocks_end(data, seqs, j, end, Carried::of_state(next));
        assert(blk + Seq::<u8>::empty() =~= blk);
        assert(data.take(end) =~= data);
        next
    } else {
        let last = lemma_coded_blocks(data, seqs, j, end, next);
        frame::lemma_leads_join(
            blk,
            coded_blocks(data, seqs, j, end, Carried::of_state(next)),
            true,
            st,
            next,
            last,
        );
        last
    }
}

/// A decoder reads the blocks of a frame; gives its last state.
proof fn lemma_frame_blocks(data: Seq<u8>, level: int) -> (last: DecState)
    requires
        data.len() <= usize::MAX,
    ensures
        frame::leads(frame_blocks(data, level), true, DecState::initial(), last),
        last.out == data,
{
    let st = DecState::initial();
    assert(data.take(0) =~= st.out);
    if data.len() == 0 {
        frame::lemma_plain_block(data, true, st);
        assert(st.out + data =~= data);
        DecState { out: data, ..st }
    } else if level <= 0 {
        lemma_plain_blocks(data, 0, st);
        DecState { out: data, ..st }
    } else {
        let seqs = matcher::all_matches(data, MatchParams::for_level(level));
        matcher::lemma_all_matches(data, MatchParams::for_level(level));
        lemma_coded_blocks(data, seqs, 0, 0, st)
    }
}

/// Blocks that are not compressed are blocks and nothing else.
proof fn lemma_plain_structure(data: Seq<u8>, pos: int, st: DecState)
    requires
        0 <= pos < data.len(),
        st.out == data.take(pos),
    ensures
        frame::all_blocks(plain_blocks(data, pos), st, data.len() - pos),
        plain_blocks(data, pos).len() <= data.len() - pos + 3 * (2 * ((data.len() - pos) / 131072)
            + 1),
    decreases data.len() - pos,
{
    let end = pos + at_most_block(data.len() - pos);
    let b = data.subrange(pos, end);
    let last = end == data.len();
    let next = DecState { out: st.out + b, ..st };
    frame::lemma_plain_block(b, last, st);
    frame::lemma_block_head_len(last, 0, b.len());
    frame::lemma_block_head_len(last, 1, b.len());
    assert(data.take(pos) + b =~= data.take(end));
    if last {
        assert(plain_blocks(data, end) =~= Seq::empty());
        assert(plain_blocks(data, pos) =~= frame::plain_block(b, last));
        frame::lemma_last_block(frame::plain_block(b, last), st, next);
    } else {
        lemma_plain_structure(data, end, next);
        frame::lemma_more_blocks(
            frame::plain_block(b, last),
            plain_blocks(data, end),
            st,
            next,
            data.len() - end,
        );
    }
}

/// Blocks with the given sequences are blocks and nothing else.
proof fn lemma_coded_structure(
    data: Seq<u8>,
    seqs: Seq<RawSequence>,
    i: nat,
    pos: int,
    st: DecState,
)
    requires
        matcher::is_parse(data, seqs),
        is_next(seqs, i, pos),
        0 <= pos < data.len() <= usize::MAX,
        st.out == data.take(pos),
    ensures
        frame::all_blocks(
            coded_blocks(data, seqs, i, pos, Carried::of_state(st)),
            st,
            data.len() - pos,
        ),
    decreases data.len() - pos,
{
    let j = fitting(seqs, i, pos);
    let end = block_end(data, seqs, i, j, pos);
    let b = data.subrange(pos, end);
    let parts = block_parts(seqs, i, j, pos);
    let c = Carried::of_state(st);
    let blk = any_block(b, parts, c, end == data.len());
    let next = state_after_block(b, parts, st);
    lemma_block_end(data, seqs, i, pos);
    lemma_coded_blocks_step(data, seqs, i, pos, c);
    if i < j {
        lemma_parts(data, seqs, i, j, pos, end);
    }
    lemma_any_block(data, pos, end, parts, st);
    if end == data.len() {
        lemma_coded_blocks_end(data, seqs, j, end, Carried::of_state(next));
        assert(blk + Seq::<u8>::empty() =~= blk);
        frame::lemma_last_block(blk, st, next);
    } else {
        lemma_coded_structure(data, seqs, j, end, next);
        frame::lemma_more_blocks(
            blk,
            coded_blocks(data, seqs, j, end, Carried::of_state(next)),
            st,
            next,
            data.len() - end,
        );
    }
}

/// How long blocks with the given sequences are at most.
proof fn lemma_coded_len(data: Seq<u8>, seqs: Seq<RawSequence>, i: nat, pos: int, c: Carried)
    requires
        matcher::is_parse(data, seqs),
        is_next(seqs, i, pos),
        0 <= pos < data.len(),
    ensures
        coded_blocks(data, seqs, i, pos, c).len() <= data.len() - pos + 3 * (2 * ((data.len() - pos)
            / 131072) + 1),
    decreases data.len() - pos,
{
    let j = fitting(seqs, i, pos);
    let end = block_end(data, seqs, i, j, pos);
    let b = data.subrange(pos, end);
    let parts = block_parts(seqs, i, j, pos);
    let c1 = carried_after_block(b, parts, c);
    lemma_block_end(data, seqs, i, pos);
    lemma_two_blocks(data, seqs, i, pos);
    lemma_coded_blocks_step(data, seqs, i, pos, c);
    lemma_block_len(b, parts, c, end == data.len());
    if end == data.len() {
        lemma_coded_blocks_end(data, seqs, j, end, c1);
    } else if end - pos == 131072 {
        lemma_coded_len(data, seqs, j, end, c1);
    } else {
        let j2 = fitting(seqs, j, end);
        let end2 = block_end(data, seqs, j, j2, end);
        let b2 = data.subrange(end, end2);
        let parts2 = block_parts(seqs, j, j2, end);
        let c2 = carried_after_block(b2, parts2, c1);
        lemma_block_end(data, seqs, j, end);
        lemma_coded_blocks_step(data, seqs, j, end, c1);
        lemma_block_len(b2, parts2, c1, end2 == data.len());
        if end2 == data.len() {
            lemma_coded_blocks_end(data, seqs, j2, end2, c2);
        } else {
            lemma_coded_len(data, seqs, j2, end2, c2);
        }
    }
}

/// After its header a frame is one or more blocks and nothing else; only the last is flagged
/// as the last; each gives at most 128 KiB, and all together as many bytes as `data` has.
pub proof fn lemma_frame_structure(data: Seq<u8>, level: int)
    requires
        data.len() <= usize::MAX,
    ensures
        compressed(data, level) == frame::header_for(data.len()) + frame_blocks(data, level),
        frame::all_blocks(
            frame_blocks(data, level),
            DecState::initial(),
            data.len() as int,
        ),
{
    let st = DecState::initial();
    assert(data.take(0) =~= st.out);
    if data.len() == 0 {
        frame::lemma_plain_block(data, true, st);
        frame::lemma_last_block(
            frame::plain_block(data, true),
            st,
            DecState { out: st.out + data, ..st },
        );
    } else if level <= 0 {
        lemma_plain_structure(data, 0, st);
    } else {
        let seqs = matcher::all_matches(data, MatchParams::for_level(level));
        matcher::lemma_all_matches(data, MatchParams::for_level(level));
        lemma_coded_structure(data, seqs, 0, 0, st);
    }
}

/// A frame is at most as much longer than its content as its header and three bytes for
/// each block, of which there are at most two for each 128 KiB, and one more.
pub proof fn lemma_frame_len(data: Seq<u8>, level: int)
    requires
        data.len() <= usize::MAX,
    ensures
        compressed(data, level).len() <= data.len() + 13 + 3 * (2 * (data.len() / 131072) + 1),
{
    frame::lemma_header_len(data.len());
    if data.len() == 0 {
        frame::lemma_block_head_len(true, 0, 0);
    } else if level <= 0 {
        let st = DecState::initial();
        assert(data.take(0) =~= st.out);
        lemma_plain_structure(data, 0, st);
    } else {
        let seqs = matcher::all_matches(data, MatchParams::for_level(level));
        matcher::lemma_all_matches(data, MatchParams::for_level(level));
        lemma_coded_len(data, seqs, 0, 0, Carried::initial());
    }
}

/// What was compressed is decompressed to the same bytes.
pub proof fn lemma_round_trip(data: Seq<u8>, level: int)
    requires
        data.len() <= decode::MAXIMUM_ALLOWED_WINDOW_SIZE,
    ensures
        decode::decompress_from(compressed(data, level), Seq::empty()) == Ok::<
            Seq<u8>,
            DecodeError,
        >(data),
{
    let nothing = Seq::<u8>::empty();
    lemma_frame_in_front(data, level, nothing, nothing);
    assert(compressed(data, level) + nothing =~= compressed(data, level));
    assert(nothing + data =~= data);
}

/// A frame gives its content, and what follows it is decompressed after it.
pub proof fn lemma_frame_in_front(data: Seq<u8>, level: int, rest: Seq<u8>, before: Seq<u8>)
    requires
        data.len() <= decode::MAXIMUM_ALLOWED_WINDOW_SIZE,
    ensures
        decode::decompress_from(compressed(data, level) + rest, before) == decode::decompress_from(
            rest,
            before + data,
        ),
        frames::whole_frames(compressed(data, level)),
{
    let blocks = frame_blocks(data, level);
    let last = lemma_frame_blocks(data, level);
    frame::lemma_frame(blocks, data.len(), last, rest, before);
    frames::lemma_one_frame(blocks, data.len(), last);
}

/// A frame whose content does not fit the largest window is refused.
pub proof fn lemma_too_large(data: Seq<u8>, level: int)
    requires
        decode::MAXIMUM_ALLOWED_WINDOW_SIZE < data.len() <= u64::MAX,
    ensures
        decode::decompress_from(compressed(data, level), Seq::empty()) == Err::<
            Seq<u8>,
            DecodeError,
        >(DecodeError::WindowNotAllowed { size: data.len() as u64 }),
{
    frame::lemma_frame_refused(data.len(), frame_blocks(data, level));
}

// ---------------------------------------------------------------------------
// Compression
// ---------------------------------------------------------------------------

/// Copies the sequences of a block.
fn collect_parts(
    seqs: &[RawSequence],
    i: usize,
    j: usize,
    first_ll: usize,
    Ghost(pos): Ghost<int>,
) -> (parts: Vec<RawSequence>)
    requires
        i < j <= seqs@.len(),
        first_ll == matcher::match_at(seqs@, i as int) - pos,
    ensures
        parts@ == block_parts(seqs@, i as nat, j as nat, pos),
{
    let mut parts: Vec<RawSequence> = Vec::new();
    let first = seqs[i];
    parts.push(RawSequence { ll: first_ll, off: first.off, ml: first.ml });
    let mut k: usize = i + 1;
    while k < j
        invariant
            i < k <= j <= seqs@.len(),
            first_ll == matcher::match_at(seqs@, i as int) - pos,
            parts@.len() == k - i,
            forall|m: int|
                0 <= m < k - i ==> #[trigger] parts@[m] == block_parts(
                    seqs@,
                    i as nat,
                    j as nat,
                    pos,
                )[m],
        decreases j - k,
    {
        parts.push(seqs[k]);
        k = k + 1;
    }
    assert(parts@ =~= block_parts(seqs@, i as nat, j as nat, pos));
    parts
}

/// What the encoder keeps between blocks.
struct BlockState {
    rep: [u32; 3],
    codes: LiteralCodes,
}

impl BlockState {
    spec fn view(&self) -> Carried {
        Carried { hist: OffsetHistory::of_seq(self.rep@), huf: self.codes@ }
    }
}

/// Appends the block of `data` from `pos` to `end` with the given sequences; updates the
/// state where the block is compressed.
fn write_block(
    out: &mut Vec<u8>,
    data: &[u8],
    pos: usize,
    end: usize,
    parts: &[RawSequence],
    state: &mut BlockState,
)
    requires
        pos <= end <= data@.len(),
        end - pos <= 131072,
        parts@.len() > 0 ==> block::is_block_parse(data@, pos as int, end as int, parts@),
        old(state).codes.wf(),
    ensures
        ({
            let b = data@.subrange(pos as int, end as int);
            &&& final(out)@ == old(out)@ + any_block(b, parts@, old(state)@, end == data@.len())
            &&& final(state)@ == carried_after_block(b, parts@, old(state)@)
        }),
        final(state).codes.wf(),
{
    let b = &data[pos..end];
    let is_last = end == data.len();
    if parts.len() > 0 && !is_rle_block(b) {
        let mut next_rep: [u32; 3] = [state.rep[0], state.rep[1], state.rep[2]];
        assert(OffsetHistory::of_seq(next_rep@) == OffsetHistory::of_seq(state.rep@));
        let (content, next_codes) = encode_block_content(
            data,
            pos,
            end,
            parts,
            &mut next_rep,
            &state.codes,
        );
        if content.len() < b.len() {
            write_compressed_block(out, &content, is_last);
            state.rep = next_rep;
            match next_codes {
                Some(codes) => {
                    state.codes = codes;
                },
                None => {},
            }
            return;
        }
    }
    write_plain_block(out, b, is_last);
}

/// Appends `data` in blocks that are not compressed.
fn write_plain_blocks(out: &mut Vec<u8>, data: &[u8])
    ensures
        final(out)@ == old(out)@ + plain_blocks(data@, 0),
{
    let have = data.len();
    let mut pos: usize = 0;
    let ghost goal = out@ + plain_blocks(data@, 0);
    while pos < have
        invariant
            have == data@.len(),
            pos <= have,
            goal == out@ + plain_blocks(data@, pos as int),
        decreases have - pos,
    {
        let left = have - pos;
        let end = pos + if left < ZSTD_BLOCKSIZE_MAX {
            left
        } else {
            ZSTD_BLOCKSIZE_MAX
        };
        let b = &data[pos..end];
        let ghost before = out@;
        write_plain_block(out, b, end == have);
        proof {
            let blk = frame::plain_block(b@, end == have);
            let rest = plain_blocks(data@, end as int);
            assert(before + (blk + rest) =~= (before + blk) + rest);
        }
        pos = end;
    }
    assert(goal =~= out@);
}

/// The first sequence from `i` on that does not fit a block from `pos` on, and the bytes
/// that the sequences before it make.
fn find_fitting(seqs: &[RawSequence], i: usize, made: usize, pos: usize, have: usize) -> (r: (
    usize,
    usize,
))
    requires
        i <= seqs@.len(),
        made == matcher::made_by(seqs@, i as nat),
        made <= pos,
        matcher::made_by(seqs@, seqs@.len()) <= have,
    ensures
        r.0 == fitting(seqs@, i as nat, pos as int),
        r.1 == matcher::made_by(seqs@, r.0 as nat),
        i <= r.0 <= seqs@.len(),
{
    let mut j = i;
    let mut end = made;
    while j < seqs.len()
        invariant
            i <= j <= seqs@.len(),
            end == matcher::made_by(seqs@, j as nat),
            matcher::made_by(seqs@, seqs@.len()) <= have,
            fitting(seqs@, i as nat, pos as int) == fitting(seqs@, j as nat, pos as int),
        decreases seqs@.len() - j,
    {
        proof {
            block::lemma_made_monotone(seqs@, (j + 1) as nat, seqs@.len());
        }
        let next = end + seqs[j].ll + seqs[j].ml as usize;
        if next > pos && next - pos > ZSTD_BLOCKSIZE_MAX {
            return (j, end);
        }
        end = next;
        j = j + 1;
    }
    (j, end)
}

/// The next block: where it ends, its sequences, and the sequence after them.
struct BlockPlan {
    end: usize,
    parts: Vec<RawSequence>,
    next: usize,
    made: usize,
}

/// Plans the block from `pos` on, where sequence `i` is the next.
fn plan_block(data: &[u8], seqs: &[RawSequence], i: usize, made: usize, pos: usize) -> (plan:
    BlockPlan)
    requires
        matcher::is_parse(data@, seqs@),
        is_next(seqs@, i as nat, pos as int),
        pos < data@.len(),
        made == matcher::made_by(seqs@, i as nat),
    ensures
        plan.next == fitting(seqs@, i as nat, pos as int),
        plan.end == block_end(data@, seqs@, i as nat, plan.next as nat, pos as int),
        plan.parts@ == block_parts(seqs@, i as nat, plan.next as nat, pos as int),
        plan.made == matcher::made_by(seqs@, plan.next as nat),
        is_next(seqs@, plan.next as nat, plan.end as int),
        pos < plan.end <= data@.len(),
        plan.end - pos <= 131072,
        plan.parts@.len() > 0 ==> block::is_block_parse(
            data@,
            pos as int,
            plan.end as int,
            plan.parts@,
        ),
{
    reveal(matcher::is_parse);
    let have = data.len();
    proof {
        lemma_block_end(data@, seqs@, i as nat, pos as int);
        if i < seqs@.len() {
            assert(matcher::is_sequence(
                data@,
                seqs@[i as int],
                matcher::match_at(seqs@, i as int),
            ));
        }
    }
    let (j, end_of_seqs) = find_fitting(seqs, i, made, pos, have);
    let left = have - pos;
    if i == j {
        let literals = if i < seqs.len() {
            made + seqs[i].ll - pos
        } else {
            left
        };
        let end = pos + if literals < ZSTD_BLOCKSIZE_MAX {
            literals
        } else {
            ZSTD_BLOCKSIZE_MAX
        };
        let parts: Vec<RawSequence> = Vec::new();
        assert(parts@ =~= block_parts(seqs@, i as nat, j as nat, pos as int));
        BlockPlan { end, parts, next: j, made: end_of_seqs }
    } else {
        proof {
            if j < seqs@.len() {
                assert(matcher::is_sequence(
                    data@,
                    seqs@[j as int],
                    matcher::match_at(seqs@, j as int),
                ));
                block::lemma_made_monotone(seqs@, (j + 1) as nat, seqs@.len());
            }
        }
        let end = if j == seqs.len() && left <= ZSTD_BLOCKSIZE_MAX {
            have
        } else if j < seqs.len() && seqs[j].ll + seqs[j].ml as usize > ZSTD_BLOCKSIZE_MAX {
            let literals = end_of_seqs + seqs[j].ll - pos;
            pos + if literals < ZSTD_BLOCKSIZE_MAX {
                literals
            } else {
                ZSTD_BLOCKSIZE_MAX
            }
        } else {
            end_of_seqs
        };
        let parts = collect_parts(seqs, i, j, made + seqs[i].ll - pos, Ghost(pos as int));
        proof {
            lemma_parts(data@, seqs@, i as nat, j as nat, pos as int, end as int);
        }
        BlockPlan { end, parts, next: j, made: end_of_seqs }
    }
}

/// Appends `data` in blocks with the given sequences.
fn write_coded_blocks(out: &mut Vec<u8>, data: &[u8], seqs: &[RawSequence])
    requires
        matcher::is_parse(data@, seqs@),
    ensures
        final(out)@ == old(out)@ + coded_blocks(data@, seqs@, 0, 0, Carried::initial()),
{
    let have = data.len();
    let mut pos: usize = 0;
    let mut i: usize = 0;
    let mut made: usize = 0;
    let mut state = BlockState { rep: [1, 4, 8], codes: LiteralCodes::none() };
    let ghost goal = out@ + coded_blocks(data@, seqs@, 0, 0, Carried::initial());
    assert(state@ == Carried::initial());
    while pos < have
        invariant
            have == data@.len(),
            pos <= have,
            matcher::is_parse(data@, seqs@),
            is_next(seqs@, i as nat, pos as int),
            made == matcher::made_by(seqs@, i as nat),
            state.codes.wf(),
            goal == out@ + coded_blocks(
                data@,
                seqs@,
                i as nat,
                pos as int,
                state@,
            ),
        decreases have - pos,
    {
        let plan = plan_block(data, seqs, i, made, pos);
        let end = plan.end;
        let ghost before = out@;
        let ghost c = state@;
        write_block(out, data, pos, end, &plan.parts, &mut state);
        proof {
            let b = data@.subrange(pos as int, end as int);
            let blk = any_block(b, plan.parts@, c, end == have);
            let rest = coded_blocks(
                data@,
                seqs@,
                plan.next as nat,
                end as int,
                state@,
            );
            lemma_coded_blocks_step(data@, seqs@, i as nat, pos as int, c);
            assert(before + (blk + rest) =~= (before + blk) + rest);
        }
        pos = end;
        i = plan.next;
        made = plan.made;
    }
    proof {
        lemma_coded_blocks_end(data@, seqs@, i as nat, pos as int, state@);
        assert(goal =~= out@);
    }
}

/// Compresses `data` into a frame.
///
/// `level` controls the strategy:
/// - 0 and below: no compression
/// - 1 to 2: the first match is taken
/// - 3 to 5: a better match at the next position is taken
/// - 6 to 8: the same with a deeper search
/// - 9 and above: the same with the deepest search
///
/// A frame of at most 100 MiB is decompressed to `data`; the window of a larger one is
/// refused.
pub fn compress(data: &[u8], level: i32) -> (out: Vec<u8>)
    ensures
        out@ == compressed(data@, level as int),
        data@.len() <= decode::MAXIMUM_ALLOWED_WINDOW_SIZE ==> decode::decompress_from(
            out@,
            Seq::empty(),
        ) == Ok::<Seq<u8>, DecodeError>(data@),
        out@.len() <= data@.len() + 13 + 3 * (2 * (data@.len() / 131072) + 1),
{
    let mut out: Vec<u8> = Vec::new();
    write_frame_header(&mut out, data.len() as u64);
    assert(out@ =~= frame::header_for(data@.len()));
    if data.len() == 0 {
        write_raw_block(&mut out, data, true);
    } else if level <= 0 {
        write_plain_blocks(&mut out, data);
    } else {
        let params = MatchParams::from_level(level);
        let sequences = find_matches(data, &params);
        proof {
            matcher::lemma_all_matches(data@, params);
        }
        write_coded_blocks(&mut out, data, &sequences);
    }
    proof {
        lemma_frame_len(data@, level as int);
        if data@.len() <= decode::MAXIMUM_ALLOWED_WINDOW_SIZE {
            lemma_round_trip(data@, level as int);
        }
    }
    out
}

/// Compresses with level 1.
pub fn compress_to_vec(data: &[u8]) -> (out: Vec<u8>)
    ensures
        out@ == compressed(data@, 1),
        data@.len() <= decode::MAXIMUM_ALLOWED_WINDOW_SIZE ==> decode::decompress_from(
            out@,
            Seq::empty(),
        ) == Ok::<Seq<u8>, DecodeError>(data@),
        out@.len() <= data@.len() + 13 + 3 * (2 * (data@.len() / 131072) + 1),
{
    compress(data, 1)
}

} // verus!
