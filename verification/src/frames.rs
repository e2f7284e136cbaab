//! Frames one after the other.
use crate::bytes;
use crate::decode;
use crate::decode::{BlockHeader, DecState, FrameDecoderError, FrameHeader};
use crate::error::DecodeError;
use crate::frame;
use vstd::arithmetic::power2::*;
use vstd::prelude::*;

verus! {

/// `src` holds whole frames and whole skippable frames, and nothing else.
pub open spec fn whole_frames(src: Seq<u8>) -> bool
    decreases src.len(),
{
    if src.len() == 0 {
        true
    } else {
        match decode::frame_start(src) {
            Ok((h, n)) => match decode::frame_content(h, src.skip(n as int)) {
                Err(_) => false,
                Ok((_, rest)) => {
                    proof {
                        decode::lemma_frame_rest(h, src, n);
                    }
                    whole_frames(rest)
                },
            },
            Err(FrameDecoderError::Skippable { length }) => 8 + length <= src.len()
                && whole_frames(src.skip(8 + length)),
            Err(FrameDecoderError::Header(_)) => false,
        }
    }
}

/// A skippable frame: one of sixteen magic numbers, a size, and content of that size.
pub open spec fn skippable_frame(kind: nat, content: Seq<u8>) -> Seq<u8> {
    bytes::le_bytes(0x184D2A50 + kind, 4) + bytes::le_bytes(content.len(), 4) + content
}

// ---------------------------------------------------------------------------
// More bytes behind a frame
// ---------------------------------------------------------------------------

/// A frame header that is there does not change with what follows.
proof fn lemma_header_prefix(a: Seq<u8>, b: Seq<u8>)
    requires
        decode::frame_header(a) !is Err || decode::frame_header(a)->Err_0 is Skippable,
    ensures
        decode::frame_header(a + b) == decode::frame_header(a),
{
    let s = a + b;
    assert(s.take(4) =~= a.take(4));
    if decode::frame_header(a) is Err {
        assert(s.subrange(4, 8) =~= a.subrange(4, 8));
    } else {
        let (h, end) = decode::frame_header(a)->Ok_0;
        let at = end - h.descriptor.content_size_len();
        assert(s.subrange(at, end as int) =~= a.subrange(at, end as int));
    }
}

proof fn lemma_start_prefix(a: Seq<u8>, b: Seq<u8>)
    requires
        decode::frame_start(a) is Ok || decode::frame_start(a)->Err_0 is Skippable,
    ensures
        decode::frame_start(a + b) == decode::frame_start(a),
{
    reveal(decode::frame_start);
    lemma_header_prefix(a, b);
}

proof fn lemma_content_prefix(st: DecState, h: BlockHeader, a: Seq<u8>, b: Seq<u8>)
    requires
        decode::block_content(st, h, a) is Ok,
    ensures
        decode::block_content(st, h, a + b) == decode::block_content(st, h, a),
{
    reveal(decode::block_content);
    let n = h.content_size as int;
    if n <= a.len() {
        assert((a + b).take(n) =~= a.take(n));
    }
}

/// Blocks that are there do not change with what follows.
proof fn lemma_blocks_prefix(st: DecState, a: Seq<u8>, b: Seq<u8>)
    requires
        decode::decode_blocks(st, a) is Ok,
    ensures
        ({
            let (end, rest) = decode::decode_blocks(st, a)->Ok_0;
            decode::decode_blocks(st, a + b) == Ok::<(DecState, Seq<u8>), DecodeError>(
                (end, rest + b),
            )
        }),
    decreases a.len(),
{
    let s = a + b;
    let h = decode::block_header(a)->Ok_0;
    let n = 3 + h.content_size as int;
    assert(decode::block_header(s) == decode::block_header(a));
    decode::lemma_block_content_len(st, h, a.skip(3));
    lemma_content_prefix(st, h, a.skip(3), b);
    assert(s.skip(3) =~= a.skip(3) + b);
    assert(s.skip(n) =~= a.skip(n) + b);
    if !h.last_block {
        let next = decode::block_content(st, h, a.skip(3))->Ok_0;
        lemma_blocks_prefix(next, a.skip(n), b);
    }
}

proof fn lemma_frame_prefix(h: FrameHeader, a: Seq<u8>, b: Seq<u8>)
    requires
        decode::frame_content(h, a) is Ok,
    ensures
        ({
            let (end, rest) = decode::frame_content(h, a)->Ok_0;
            decode::frame_content(h, a + b) == Ok::<(DecState, Seq<u8>), DecodeError>(
                (end, rest + b),
            )
        }),
{
    reveal(decode::frame_content);
    lemma_blocks_prefix(DecState::initial(), a, b);
    let (end, rest) = decode::decode_blocks(DecState::initial(), a)->Ok_0;
    if h.descriptor.has_checksum() {
        assert((rest + b).skip(4) =~= rest.skip(4) + b);
    }
}

// ---------------------------------------------------------------------------
// Laws
// ---------------------------------------------------------------------------

/// Whole frames are decompressed, and what follows them is decompressed after them: the
/// content of frames one after the other is their contents one after the other.
pub proof fn lemma_concatenated(a: Seq<u8>, b: Seq<u8>, out: Seq<u8>)
    requires
        whole_frames(a),
    ensures
        decode::decompress_from(a, out) matches Ok(x) && decode::decompress_from(a + b, out)
            == decode::decompress_from(b, x),
    decreases a.len(),
{
    let s = a + b;
    if a.len() == 0 {
        assert(s =~= b);
    } else {
        lemma_start_prefix(a, b);
        match decode::frame_start(a) {
            Ok((h, n)) => {
                decode::lemma_frame_rest(h, a, n);
                let (end, rest) = decode::frame_content(h, a.skip(n as int))->Ok_0;
                assert(s.skip(n as int) =~= a.skip(n as int) + b);
                lemma_frame_prefix(h, a.skip(n as int), b);
                lemma_concatenated(rest, b, out + end.out);
            },
            Err(FrameDecoderError::Skippable { length }) => {
                let n = 8 + length as int;
                assert(s.skip(n) =~= a.skip(n) + b);
                lemma_concatenated(a.skip(n), b, out);
            },
            Err(FrameDecoderError::Header(_)) => {},
        }
    }
}

/// A frame header and blocks that go with it make a whole frame.
pub proof fn lemma_one_frame(blocks: Seq<u8>, n: nat, next: DecState)
    requires
        frame::leads(blocks, true, DecState::initial(), next),
        n <= decode::MAXIMUM_ALLOWED_WINDOW_SIZE,
    ensures
        whole_frames(frame::header_for(n) + blocks),
{
    reveal(frame::leads);
    let src = frame::header_for(n) + blocks;
    let nothing = Seq::<u8>::empty();
    frame::lemma_frame_start(n, blocks);
    reveal(decode::frame_content);
    assert(blocks + nothing =~= blocks);
    assert(decode::decode_blocks(DecState::initial(), blocks + nothing) == Ok::<
        (DecState, Seq<u8>),
        DecodeError,
    >((next, nothing)));
    assert(whole_frames(nothing));
}

/// What whole frames give follows the output before them.
pub proof fn lemma_output_before(a: Seq<u8>, out: Seq<u8>)
    requires
        whole_frames(a),
    ensures
        decode::decompress_from(a, Seq::empty()) matches Ok(x) && decode::decompress_from(a, out)
            == Ok::<Seq<u8>, DecodeError>(out + x),
    decreases a.len(),
{
    lemma_output_shift(a, Seq::empty(), out);
    assert(out + Seq::<u8>::empty() =~= out);
}

proof fn lemma_output_shift(a: Seq<u8>, out: Seq<u8>, before: Seq<u8>)
    requires
        whole_frames(a),
    ensures
        decode::decompress_from(a, out) matches Ok(x) && decode::decompress_from(a, before + out)
            == Ok::<Seq<u8>, DecodeError>(before + x),
    decreases a.len(),
{
    if a.len() > 0 {
        match decode::frame_start(a) {
            Ok((h, n)) => {
                decode::lemma_frame_rest(h, a, n);
                let (end, rest) = decode::frame_content(h, a.skip(n as int))->Ok_0;
                lemma_output_shift(rest, out + end.out, before);
                assert(before + (out + end.out) =~= (before + out) + end.out);
            },
            Err(FrameDecoderError::Skippable { length }) => {
                lemma_output_shift(a.skip(8 + length as int), out, before);
            },
            Err(FrameDecoderError::Header(_)) => {},
        }
    }
}

/// A skippable frame is skipped.
pub proof fn lemma_skippable(kind: nat, content: Seq<u8>, rest: Seq<u8>, out: Seq<u8>)
    requires
        kind < 16,
        content.len() <= u32::MAX,
    ensures
        decode::decompress_from(skippable_frame(kind, content) + rest, out)
            == decode::decompress_from(rest, out),
{
    reveal(decode::frame_start);
    let magic = bytes::le_bytes(0x184D2A50 + kind, 4);
    let size = bytes::le_bytes(content.len(), 4);
    let s = skippable_frame(kind, content) + rest;
    lemma2_to64();
    bytes::lemma_le_round_trip(0x184D2A50 + kind, 4);
    bytes::lemma_le_round_trip(content.len(), 4);
    assert(s.take(4) =~= magic);
    assert(s.subrange(4, 8) =~= size);
    assert(s.skip(8 + content.len() as int) =~= rest);
}

/// Once there is output, bytes that start no frame are ignored.
pub proof fn lemma_trailing_bytes(a: Seq<u8>, b: Seq<u8>, out: Seq<u8>)
    requires
        whole_frames(a),
        decode::decompress_from(a, out) matches Ok(x) && x.len() > 0,
        decode::frame_start(b) matches Err(e) && e is Header,
    ensures
        decode::decompress_from(a + b, out) == decode::decompress_from(a, out),
{
    lemma_concatenated(a, b, out);
}

/// Bytes that start no frame are refused where there is no output yet.
pub proof fn lemma_no_frame(b: Seq<u8>, e: DecodeError)
    requires
        b.len() > 0,
        decode::frame_start(b) == Err::<(FrameHeader, nat), FrameDecoderError>(
            FrameDecoderError::Header(e),
        ),
    ensures
        decode::decompress_from(b, Seq::empty()) == Err::<Seq<u8>, DecodeError>(e),
{
}

} // verus!
