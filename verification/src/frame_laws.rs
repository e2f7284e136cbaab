//! What the bytes of a frame mean: its header, its blocks, and the checksum behind them.
use crate::bytes;
use crate::decode;
use crate::decode::{
    BlockHeader, BlockType, DecState, FrameDecoderError, FrameDescriptor, FrameHeader,
};
use crate::error::DecodeError;
use crate::execute::OffsetHistory;
use crate::frame;
use crate::fse_decode::FseTab;
use crate::huffman::HufTab;
use crate::sequences::{CodeTab, CodeTabs};
use vstd::arithmetic::power2::*;
use vstd::prelude::*;

verus! {

// ---------------------------------------------------------------------------
// Frames
// ---------------------------------------------------------------------------

/// What a decoder has at the start of a frame: no tables, the offsets 1, 4 and 8, and no
/// output.
pub open spec fn fresh() -> DecState {
    let none = CodeTab { tab: FseTab { log: 0, probs: Seq::empty() }, rle: None };
    DecState {
        huf: HufTab { max_bits: 0, lens: Seq::empty() },
        fse: CodeTabs { ll: none, of: none, ml: none },
        hist: OffsetHistory { r0: 1, r1: 4, r2: 8 },
        out: Seq::empty(),
    }
}

/// The parts of a frame header behind the descriptor `d`: a window byte unless the frame
/// is a single segment, a dictionary id of 0, 1, 2 or 4 bytes, and the size of the content in
/// 1, 2, 4 or 8 bytes, or not at all.
pub open spec fn header_parts(d: u8, window: Seq<u8>, dict: Seq<u8>, size: Seq<u8>) -> bool {
    let single = (d / 32) % 2 == 1;
    &&& window.len() == (if single {
        0int
    } else {
        1
    })
    &&& dict.len() == (if d % 4 == 0 {
        0int
    } else if d % 4 == 1 {
        1
    } else if d % 4 == 2 {
        2
    } else {
        4
    })
    &&& size.len() == (if d / 64 == 0 {
        if single {
            1int
        } else {
            0
        }
    } else if d / 64 == 1 {
        2
    } else if d / 64 == 2 {
        4
    } else {
        8
    })
}

/// The memory that a frame asks for: the size of the content of a single segment, else
/// what the window byte says, in eighths of a power of two from 1024 on.
pub open spec fn memory(d: u8, window: Seq<u8>, size: Seq<u8>) -> int {
    if (d / 32) % 2 == 1 {
        bytes::le_value(size) + (if size.len() == 2 {
            256int
        } else {
            0
        })
    } else {
        (8 + window[0] % 8) * pow2((7 + window[0] / 8) as nat)
    }
}

/// A frame: four bytes of magic, the descriptor, the parts that it announces, the blocks,
/// and the checksum.
pub open spec fn frame_of(
    d: u8,
    window: Seq<u8>,
    dict: Seq<u8>,
    size: Seq<u8>,
    blocks: Seq<u8>,
    checksum: Seq<u8>,
) -> Seq<u8> {
    seq![0x28u8, 0xB5, 0x2F, 0xFD, d] + window + dict + size + blocks + checksum
}

proof fn lemma_four(s: Seq<u8>)
    requires
        s.len() == 4,
    ensures
        bytes::le_value(s) == s[0] + 256 * s[1] + 65536 * s[2] + 16777216 * s[3],
{
    reveal_with_fuel(bytes::le_value, 5);
    assert(s.drop_first()[0] == s[1]);
    assert(s.drop_first().drop_first()[0] == s[2]);
    assert(s.drop_first().drop_first().drop_first()[0] == s[3]);
}

proof fn lemma_window_byte(b: u8)
    ensures
        decode::descriptor_window(b) == (8 + b % 8) * pow2((7 + b / 8) as nat),
        decode::descriptor_window(b) >= 1024,
        decode::descriptor_window(b) <= 15 * 0x40_0000_0000,
{
    let e = (7 + b / 8) as nat;
    lemma2_to64();
    lemma2_to64_rest();
    lemma_pow2_adds(3, e);
    assert(pow2(e + 3) == 8 * pow2(e));
    crate::bits::lemma_pow2_monotone(7, e);
    crate::bits::lemma_pow2_monotone(e, 38);
    assert(pow2(e) * (b % 8) + 8 * pow2(e) == (8 + b % 8) * pow2(e)) by (nonlinear_arith);
    assert((8 + b % 8) * pow2(e) >= 1024) by (nonlinear_arith)
        requires
            pow2(e) >= 128,
            b % 8 >= 0,
    ;
    assert((8 + b % 8) * pow2(e) <= 15 * 0x40_0000_0000) by (nonlinear_arith)
        requires
            0 <= pow2(e) <= 0x40_0000_0000,
            0 <= b % 8 <= 7,
    ;
}

proof fn lemma_le_bound(s: Seq<u8>)
    ensures
        bytes::le_value(s) < pow2(8 * s.len()),
    decreases s.len(),
{
    lemma2_to64();
    if s.len() > 0 {
        lemma_le_bound(s.drop_first());
        lemma_pow2_adds(8, (8 * s.len() - 8) as nat);
    }
}

/// The header of a frame is read to its last byte.
pub proof fn lemma_header(d: u8, window: Seq<u8>, dict: Seq<u8>, size: Seq<u8>, rest: Seq<u8>)
    requires
        header_parts(d, window, dict, size),
    ensures
        ({
            let head = seq![0x28u8, 0xB5, 0x2F, 0xFD, d] + window + dict + size;
            decode::frame_header(head + rest) == Ok::<(FrameHeader, nat), FrameDecoderError>(
                (
                    FrameHeader {
                        descriptor: FrameDescriptor(d),
                        window_descriptor: if (d / 32) % 2 == 1 {
                            0
                        } else {
                            window[0]
                        },
                        frame_content_size: (bytes::le_value(size) + (if size.len() == 2 {
                            256int
                        } else {
                            0
                        })) as u64,
                    },
                    head.len(),
                ),
            )
        }),
        bytes::le_value(size) <= u64::MAX,
        size.len() <= 2 ==> bytes::le_value(size) < 65536,
{
    let start = seq![0x28u8, 0xB5, 0x2F, 0xFD, d];
    let head = start + window + dict + size;
    let src = head + rest;
    lemma_four(src.take(4));
    assert(src.take(4) =~= seq![0x28u8, 0xB5, 0x2F, 0xFD]);
    assert(bytes::le_value(src.take(4)) == 0xFD2FB528);
    assert(src[4] == d);
    let at = 5 + window.len() + dict.len();
    assert(src.subrange(at as int, head.len() as int) =~= size);
    lemma2_to64();
    lemma2_to64_rest();
    lemma_le_bound(size);
    if window.len() == 1 {
        assert(src[5] == window[0]);
    }
}

/// A frame in front of other bytes is read and the rest goes on behind its content: with or
/// without a window byte, a dictionary id and a content size, and with any checksum.
pub proof fn lemma_any_frame(
    d: u8,
    window: Seq<u8>,
    dict: Seq<u8>,
    size: Seq<u8>,
    blocks: Seq<u8>,
    checksum: Seq<u8>,
    end: DecState,
    rest: Seq<u8>,
    out: Seq<u8>,
)
    requires
        header_parts(d, window, dict, size),
        memory(d, window, size) <= 100 * 1024 * 1024,
        frame::leads(blocks, true, fresh(), end),
        checksum.len() == (if (d / 4) % 2 == 1 {
            4int
        } else {
            0
        }),
    ensures
        decode::decompress_from(frame_of(d, window, dict, size, blocks, checksum) + rest, out)
            == decode::decompress_from(rest, out + end.out),
{
    let head = seq![0x28u8, 0xB5, 0x2F, 0xFD, d] + window + dict + size;
    let src = frame_of(d, window, dict, size, blocks, checksum) + rest;
    let tail = checksum + rest;
    assert(src =~= head + (blocks + tail));
    lemma_header(d, window, dict, size, blocks + tail);
    reveal(decode::frame_start);
    reveal(decode::frame_content);
    reveal(frame::leads);
    if window.len() == 1 {
        lemma_window_byte(window[0]);
    }
    assert(src.skip(head.len() as int) =~= blocks + tail);
    assert(fresh() == DecState::initial());
    assert(decode::decode_blocks(DecState::initial(), blocks + tail) == Ok::<
        (DecState, Seq<u8>),
        DecodeError,
    >((end, tail)));
    assert(tail.skip(checksum.len() as int) =~= rest);
    assert(tail.skip(0) =~= tail);
    assert(src.len() > 0);
}

/// Two frames with checksums, one after the other, give both contents.
pub proof fn lemma_two_checksums(
    blocks1: Seq<u8>,
    blocks2: Seq<u8>,
    sum1: Seq<u8>,
    sum2: Seq<u8>,
    size1: u8,
    size2: u8,
    end1: DecState,
    end2: DecState,
)
    requires
        frame::leads(blocks1, true, fresh(), end1),
        frame::leads(blocks2, true, fresh(), end2),
        sum1.len() == 4,
        sum2.len() == 4,
    ensures
        decode::decompress_from(
            seq![0x28u8, 0xB5, 0x2F, 0xFD, 0x24, size1] + blocks1 + sum1 + (seq![
                0x28u8,
                0xB5,
                0x2F,
                0xFD,
                0x24,
                size2,
            ] + blocks2 + sum2),
            Seq::empty(),
        ) == Ok::<Seq<u8>, DecodeError>(end1.out + end2.out),
{
    let none = Seq::<u8>::empty();
    let one = frame_of(0x24, none, none, seq![size1], blocks1, sum1);
    let two = frame_of(0x24, none, none, seq![size2], blocks2, sum2);
    assert(one =~= seq![0x28u8, 0xB5, 0x2F, 0xFD, 0x24, size1] + blocks1 + sum1);
    assert(two =~= seq![0x28u8, 0xB5, 0x2F, 0xFD, 0x24, size2] + blocks2 + sum2);
    reveal_with_fuel(bytes::le_value, 2);
    assert(0x24u8 / 32 == 1 && 0x24u8 / 4 == 9 && 0x24u8 / 64 == 0);
    lemma_any_frame(0x24, none, none, seq![size1], blocks1, sum1, end1, two, none);
    lemma_any_frame(0x24, none, none, seq![size2], blocks2, sum2, end2, none, end1.out);
    assert(none + end1.out =~= end1.out);
    assert(two + none =~= two);
}

/// A frame that asks for more than 100 MiB is refused, however it says so.
pub proof fn lemma_memory_refused(
    d: u8,
    window: Seq<u8>,
    dict: Seq<u8>,
    size: Seq<u8>,
    rest: Seq<u8>,
)
    requires
        header_parts(d, window, dict, size),
        memory(d, window, size) > 100 * 1024 * 1024,
    ensures
        ({
            let src = seq![0x28u8, 0xB5, 0x2F, 0xFD, d] + window + dict + size + rest;
            let asked = memory(d, window, size);
            decode::decompress_from(src, Seq::empty()) == Err::<Seq<u8>, DecodeError>(
                if (d / 32) % 2 == 0 && asked >= 15 * 0x40_0000_0000 {
                    DecodeError::WindowTooLarge { size: asked as u64 }
                } else {
                    DecodeError::WindowNotAllowed { size: asked as u64 }
                },
            )
        }),
{
    let src = seq![0x28u8, 0xB5, 0x2F, 0xFD, d] + window + dict + size + rest;
    lemma_header(d, window, dict, size, rest);
    reveal(decode::frame_start);
    if window.len() == 1 {
        lemma_window_byte(window[0]);
    }
    assert(src.len() > 0);
}

/// A frame that ends inside its checksum is refused.
pub proof fn lemma_checksum_cut(
    d: u8,
    window: Seq<u8>,
    dict: Seq<u8>,
    size: Seq<u8>,
    blocks: Seq<u8>,
    checksum: Seq<u8>,
    end: DecState,
    out: Seq<u8>,
)
    requires
        header_parts(d, window, dict, size),
        memory(d, window, size) <= 100 * 1024 * 1024,
        frame::leads(blocks, true, fresh(), end),
        (d / 4) % 2 == 1,
        checksum.len() < 4,
    ensures
        decode::decompress_from(frame_of(d, window, dict, size, blocks, checksum), out) == Err::<
            Seq<u8>,
            DecodeError,
        >(DecodeError::ChecksumTooShort),
{
    let head = seq![0x28u8, 0xB5, 0x2F, 0xFD, d] + window + dict + size;
    let src = frame_of(d, window, dict, size, blocks, checksum);
    assert(src =~= head + (blocks + checksum));
    lemma_header(d, window, dict, size, blocks + checksum);
    reveal(decode::frame_start);
    reveal(decode::frame_content);
    reveal(frame::leads);
    if window.len() == 1 {
        lemma_window_byte(window[0]);
    }
    assert(src.skip(head.len() as int) =~= blocks + checksum);
    assert(fresh() == DecState::initial());
    assert(src.len() > 0);
}

/// A frame with a block that is refused is refused, whatever came before it.
pub proof fn lemma_bad_blocks(
    d: u8,
    window: Seq<u8>,
    dict: Seq<u8>,
    size: Seq<u8>,
    rest: Seq<u8>,
    out: Seq<u8>,
    e: DecodeError,
)
    requires
        header_parts(d, window, dict, size),
        memory(d, window, size) <= 100 * 1024 * 1024,
        decode::decode_blocks(fresh(), rest) == Err::<(DecState, Seq<u8>), DecodeError>(e),
    ensures
        decode::decompress_from(
            seq![0x28u8, 0xB5, 0x2F, 0xFD, d] + window + dict + size + rest,
            out,
        ) == Err::<Seq<u8>, DecodeError>(e),
{
    let head = seq![0x28u8, 0xB5, 0x2F, 0xFD, d] + window + dict + size;
    let src = head + rest;
    lemma_header(d, window, dict, size, rest);
    reveal(decode::frame_start);
    reveal(decode::frame_content);
    if window.len() == 1 {
        lemma_window_byte(window[0]);
    }
    assert(src.skip(head.len() as int) =~= rest);
    assert(fresh() == DecState::initial());
    assert(src.len() > 0);
}

/// A frame header that is cut off is refused where there is no output yet, and ignored
/// where there is.
pub proof fn lemma_header_cut(
    d: u8,
    window: Seq<u8>,
    dict: Seq<u8>,
    size: Seq<u8>,
    n: int,
    out: Seq<u8>,
)
    requires
        header_parts(d, window, dict, size),
        0 < n < 5 + window.len() + dict.len() + size.len(),
    ensures
        ({
            let head = seq![0x28u8, 0xB5, 0x2F, 0xFD, d] + window + dict + size;
            decode::decompress_from(head.take(n), out) == if out.len() > 0 {
                Ok::<Seq<u8>, DecodeError>(out)
            } else if n < 4 {
                Err(DecodeError::MagicTooShort)
            } else if n < 5 {
                Err(DecodeError::FrameDescriptorTooShort)
            } else if n < 5 + window.len() {
                Err(DecodeError::WindowDescriptorTooShort)
            } else if n < 5 + window.len() + dict.len() {
                Err(DecodeError::DictionaryIdTooShort)
            } else {
                Err(DecodeError::ContentSizeTooShort)
            }
        }),
{
    reveal(decode::frame_start);
    let src = (seq![0x28u8, 0xB5, 0x2F, 0xFD, d] + window + dict + size).take(n);
    if n >= 4 {
        lemma_four(src.take(4));
        assert(src.take(4) =~= seq![0x28u8, 0xB5, 0x2F, 0xFD]);
    }
    if n >= 5 {
        assert(src[4] == d);
    }
}

/// A skippable frame starts with one of the bytes 0x50 to 0x5F and 0x2A, 0x4D, 0x18; four
/// bytes of size follow, and as many bytes as they say are passed over.
pub proof fn lemma_any_skippable(
    first: u8,
    size: Seq<u8>,
    content: Seq<u8>,
    rest: Seq<u8>,
    out: Seq<u8>,
)
    requires
        0x50 <= first <= 0x5F,
        size.len() == 4,
        content.len() == size[0] + 256 * size[1] + 65536 * size[2] + 16777216 * size[3],
    ensures
        decode::decompress_from(seq![first, 0x2Au8, 0x4D, 0x18] + size + content + rest, out)
            == decode::decompress_from(rest, out),
{
    reveal(decode::frame_start);
    let src = seq![first, 0x2Au8, 0x4D, 0x18] + size + content + rest;
    lemma_four(src.take(4));
    assert(src.subrange(4, 8) =~= size);
    lemma_four(size);
    assert(src.skip(8 + content.len() as int) =~= rest);
}

/// A skippable frame that is cut off is refused.
pub proof fn lemma_skippable_cut(first: u8, size: Seq<u8>, content: Seq<u8>, out: Seq<u8>)
    requires
        0x50 <= first <= 0x5F,
        size.len() == 4,
        content.len() < size[0] + 256 * size[1] + 65536 * size[2] + 16777216 * size[3],
    ensures
        decode::decompress_from(seq![first, 0x2Au8, 0x4D, 0x18] + size + content, out) == Err::<
            Seq<u8>,
            DecodeError,
        >(DecodeError::SkippableFramePastEnd),
{
    reveal(decode::frame_start);
    let src = seq![first, 0x2Au8, 0x4D, 0x18] + size + content;
    lemma_four(src.take(4));
    assert(src.subrange(4, 8) =~= size);
    lemma_four(size);
    assert(src.len() == 8 + content.len());
}

/// Bytes that start with no magic number are refused where there is no output yet, and
/// ignored where there is.
pub proof fn lemma_other_magic(src: Seq<u8>, out: Seq<u8>)
    requires
        src.len() > 0,
        src.len() >= 4 ==> src.take(4) != seq![0x28u8, 0xB5, 0x2F, 0xFD],
        src.len() >= 4 ==> !(0x50 <= src[0] <= 0x5F && src[1] == 0x2A && src[2] == 0x4D && src[3]
            == 0x18),
    ensures
        out.len() > 0 ==> decode::decompress_from(src, out) == Ok::<Seq<u8>, DecodeError>(out),
        out.len() == 0 && src.len() < 4 ==> decode::decompress_from(src, out) == Err::<
            Seq<u8>,
            DecodeError,
        >(DecodeError::MagicTooShort),
        out.len() == 0 && src.len() >= 4 ==> decode::decompress_from(src, out) == Err::<
            Seq<u8>,
            DecodeError,
        >(
            DecodeError::BadMagic {
                magic: (src[0] + 256 * src[1] + 65536 * src[2] + 16777216 * src[3]) as u32,
            },
        ),
{
    reveal(decode::frame_start);
    if src.len() >= 4 {
        let m = src.take(4);
        lemma_four(m);
        assert(m[0] == src[0] && m[1] == src[1] && m[2] == src[2] && m[3] == src[3]);
        if bytes::le_value(m) == 0xFD2FB528 {
            assert(m =~= seq![0x28u8, 0xB5, 0x2F, 0xFD]);
        }
    }
}

/// No bytes are no frames.
pub proof fn lemma_no_bytes(out: Seq<u8>)
    ensures
        decode::decompress_from(Seq::empty(), out) == Ok::<Seq<u8>, DecodeError>(out),
{
}

// ---------------------------------------------------------------------------
// Blocks
// ---------------------------------------------------------------------------

/// The number in the three bytes of a block header.
pub open spec fn head_number(src: Seq<u8>) -> int {
    src[0] + 256 * src[1] + 65536 * src[2]
}

/// What comes of a block that leads to the state `next` and has `n` bytes in all: the lowest
/// bit of its header says whether it is the last.
pub open spec fn behind_block(src: Seq<u8>, n: int, next: DecState) -> Result<
    (DecState, Seq<u8>),
    DecodeError,
> {
    if src[0] % 2 == 1 {
        Ok((next, src.skip(n)))
    } else {
        decode::decode_blocks(next, src.skip(n))
    }
}

/// Block type 0: the bytes behind the header, as they are.
pub proof fn lemma_type_raw(st: DecState, src: Seq<u8>)
    requires
        src.len() >= 3,
        (src[0] / 2) % 4 == 0,
        head_number(src) / 8 <= 131072,
    ensures
        ({
            let n = head_number(src) / 8;
            decode::decode_blocks(st, src) == if 3 + n <= src.len() {
                behind_block(
                    src,
                    3 + n,
                    DecState { out: st.out + src.subrange(3, 3 + n), ..st },
                )
            } else {
                Err(DecodeError::RawBlockTooShort)
            }
        }),
{
    reveal(decode::block_content);
    let n = head_number(src) / 8;
    if 3 + n <= src.len() {
        assert(src.skip(3).take(n) =~= src.subrange(3, 3 + n));
    }
}

/// Block type 1: one byte behind the header, which is repeated.
pub proof fn lemma_type_repeated(st: DecState, src: Seq<u8>, next: DecState)
    requires
        src.len() >= 4,
        (src[0] / 2) % 4 == 1,
        head_number(src) / 8 <= 131072,
        next.huf == st.huf,
        next.fse == st.fse,
        next.hist == st.hist,
        next.out.len() == st.out.len() + head_number(src) / 8,
        next.out.take(st.out.len() as int) == st.out,
        forall|i: int|
            st.out.len() <= i < next.out.len() ==> #[trigger] next.out[i] == src[3],
    ensures
        decode::decode_blocks(st, src) == behind_block(src, 4, next),
{
    reveal(decode::block_content);
    let n = head_number(src) / 8;
    assert(src.skip(3)[0] == src[3]);
    let new = st.out + Seq::new(n as nat, |i: int| src.skip(3)[0]);
    assert forall|i: int| 0 <= i < new.len() implies new[i] == next.out[i] by {
        if i < st.out.len() {
            assert(next.out.take(st.out.len() as int)[i] == next.out[i]);
        }
    }
    assert(next.out =~= new);
}

/// Block type 2: a compressed block of as many bytes as the header says.
pub proof fn lemma_type_compressed(st: DecState, src: Seq<u8>)
    requires
        src.len() >= 3,
        (src[0] / 2) % 4 == 2,
        head_number(src) / 8 <= 131072,
    ensures
        ({
            let n = head_number(src) / 8;
            decode::decode_blocks(st, src) == if 3 + n <= src.len() {
                match decode::compressed_block(st, src.subrange(3, 3 + n)) {
                    Ok(next) => behind_block(src, 3 + n, next),
                    Err(e) => Err(e),
                }
            } else {
                Err(DecodeError::CompressedBlockTooShort)
            }
        }),
{
    reveal(decode::block_content);
    let n = head_number(src) / 8;
    if 3 + n <= src.len() {
        assert(src.skip(3).take(n) =~= src.subrange(3, 3 + n));
    }
}

/// Blocks that are refused: those of type 3, those of more than 128 KiB, and those that are
/// cut off in the header or before the byte to repeat.
pub proof fn lemma_refused_blocks(st: DecState, src: Seq<u8>)
    ensures
        src.len() < 3 ==> decode::decode_blocks(st, src) == Err::<
            (DecState, Seq<u8>),
            DecodeError,
        >(DecodeError::BlockHeaderTooShort),
        src.len() >= 3 && (src[0] / 2) % 4 == 3 ==> decode::decode_blocks(st, src) == Err::<
            (DecState, Seq<u8>),
            DecodeError,
        >(DecodeError::ReservedBlockType),
        src.len() >= 3 && (src[0] / 2) % 4 != 3 && head_number(src) / 8 > 131072
            ==> decode::decode_blocks(st, src) == Err::<(DecState, Seq<u8>), DecodeError>(
            DecodeError::BlockTooLarge { size: (head_number(src) / 8) as u32 },
        ),
        src.len() == 3 && (src[0] / 2) % 4 == 1 && head_number(src) / 8 <= 131072
            ==> decode::decode_blocks(st, src) == Err::<(DecState, Seq<u8>), DecodeError>(
            DecodeError::RleBlockTooShort,
        ),
{
    reveal(decode::block_content);
}

/// Behind the last block of a frame with a checksum four bytes are passed over, whatever they
/// are; in a frame without one nothing is.
pub proof fn lemma_behind_blocks(
    st: DecState,
    blocks: Seq<u8>,
    end: DecState,
    checksum: Seq<u8>,
    rest: Seq<u8>,
)
    requires
        frame::leads(blocks, true, st, end),
        checksum.len() == 4,
    ensures
        decode::blocks_and_checksum(st, true, blocks + checksum + rest) == Ok::<
            (DecState, Seq<u8>),
            DecodeError,
        >((end, rest)),
        decode::blocks_and_checksum(st, false, blocks + rest) == Ok::<
            (DecState, Seq<u8>),
            DecodeError,
        >((end, rest)),
        rest.len() < 4 ==> decode::blocks_and_checksum(st, true, blocks + rest) == Err::<
            (DecState, Seq<u8>),
            DecodeError,
        >(DecodeError::ChecksumTooShort),
{
    reveal(frame::leads);
    let tail = checksum + rest;
    assert(blocks + checksum + rest =~= blocks + tail);
    assert(decode::decode_blocks(st, blocks + tail) == Ok::<(DecState, Seq<u8>), DecodeError>(
        (end, tail),
    ));
    assert(decode::decode_blocks(st, blocks + rest) == Ok::<(DecState, Seq<u8>), DecodeError>(
        (end, rest),
    ));
    assert(tail.skip(4) =~= rest);
}

/// The header of a block that is not refused: three bytes, of which the lowest bit says whether
/// it is the last, the next two the type, and the others the size.
pub proof fn lemma_block_header(src: Seq<u8>)
    requires
        src.len() >= 3,
        (src[0] / 2) % 4 != 3,
        head_number(src) / 8 <= 131072,
    ensures
        ({
            let size = (head_number(src) / 8) as u32;
            let ty = (src[0] / 2) % 4;
            decode::block_header(src) == Ok::<BlockHeader, DecodeError>(
                BlockHeader {
                    last_block: src[0] % 2 == 1,
                    block_type: if ty == 0 {
                        BlockType::Raw
                    } else if ty == 1 {
                        BlockType::RLE
                    } else {
                        BlockType::Compressed
                    },
                    decompressed_size: if ty == 2 {
                        0
                    } else {
                        size
                    },
                    content_size: if ty == 1 {
                        1
                    } else {
                        size
                    },
                },
            )
        }),
{
}

} // verus!
