//! Frame headers and block headers.
use crate::bytes;
use crate::bytes::push_le;
use crate::constants::ZSTD_MAGIC;
use crate::decode;
use crate::decode::{BlockHeader, DecState, FrameDecoderError, FrameDescriptor, FrameHeader};
use crate::error::DecodeError;
use vstd::arithmetic::power2::*;
use vstd::prelude::*;

verus! {

// ---------------------------------------------------------------------------
// Frame header
// ---------------------------------------------------------------------------

/// The descriptor of a frame of `n` bytes: one segment, no checksum, no dictionary, and
/// the size of the content in the fewest bytes.
pub open spec fn descriptor_for(n: nat) -> u8 {
    if n <= 255 {
        32
    } else if n <= 65791 {
        96
    } else if n <= 0xFFFF_FFFF {
        160
    } else {
        224
    }
}

/// The size of the content.
pub open spec fn size_field(n: nat) -> Seq<u8> {
    if n <= 255 {
        bytes::le_bytes(n, 1)
    } else if n <= 65791 {
        bytes::le_bytes((n - 256) as nat, 2)
    } else if n <= 0xFFFF_FFFF {
        bytes::le_bytes(n, 4)
    } else {
        bytes::le_bytes(n, 8)
    }
}

/// The header of a frame of `n` bytes.
pub open spec fn header_for(n: nat) -> Seq<u8> {
    bytes::le_bytes(ZSTD_MAGIC as nat, 4) + seq![descriptor_for(n)] + size_field(n)
}

/// A frame header has at most thirteen bytes.
pub proof fn lemma_header_len(n: nat)
    ensures
        6 <= header_for(n).len() <= 13,
{
    bytes::lemma_le_len(ZSTD_MAGIC as nat, 4);
    bytes::lemma_le_len(n, 1);
    bytes::lemma_le_len((n - 256) as nat, 2);
    bytes::lemma_le_len(n, 4);
    bytes::lemma_le_len(n, 8);
}

/// Appends a frame header.
pub fn write_frame_header(out: &mut Vec<u8>, content_size: u64)
    ensures
        final(out)@ == old(out)@ + header_for(content_size as nat),
{
    push_le(out, ZSTD_MAGIC as u64, 4);
    let (descriptor, value, len): (u8, u64, usize) = if content_size <= 255 {
        (32, content_size, 1)
    } else if content_size <= 65791 {
        (96, content_size - 256, 2)
    } else if content_size <= 0xFFFF_FFFF {
        (160, content_size, 4)
    } else {
        (224, content_size, 8)
    };
    out.push(descriptor);
    push_le(out, value, len);
    assert(out@ =~= old(out)@ + header_for(content_size as nat));
}

/// A frame header is read back, whatever follows it.
pub proof fn lemma_header_round_trip(n: nat, rest: Seq<u8>)
    requires
        n <= 0xFFFF_FFFF_FFFF_FFFF,
    ensures
        decode::frame_header(header_for(n) + rest) == Ok::<
            (FrameHeader, nat),
            FrameDecoderError,
        >(
            (
                FrameHeader {
                    descriptor: FrameDescriptor(descriptor_for(n)),
                    window_descriptor: 0,
                    frame_content_size: n as u64,
                },
                header_for(n).len(),
            ),
        ),
{
    let head = header_for(n);
    let src = head + rest;
    let magic = bytes::le_bytes(ZSTD_MAGIC as nat, 4);
    let size = size_field(n);
    lemma2_to64();
    lemma2_to64_rest();
    bytes::lemma_le_round_trip(ZSTD_MAGIC as nat, 4);
    if n <= 255 {
        bytes::lemma_le_round_trip(n, 1);
    } else if n <= 65791 {
        bytes::lemma_le_round_trip((n - 256) as nat, 2);
    } else if n <= 0xFFFF_FFFF {
        bytes::lemma_le_round_trip(n, 4);
    } else {
        bytes::lemma_le_round_trip(n, 8);
    }
    assert(src.take(4) =~= magic);
    assert(src[4] == descriptor_for(n));
    assert(src.subrange(5, 5 + size.len() as int) =~= size);
}

/// A frame whose content fits the largest window can be started.
pub proof fn lemma_frame_start(n: nat, rest: Seq<u8>)
    requires
        n <= decode::MAXIMUM_ALLOWED_WINDOW_SIZE,
    ensures
        decode::frame_start(header_for(n) + rest) matches Ok((h, len)) && len == header_for(n).len()
            && !h.descriptor.has_checksum(),
        (header_for(n) + rest).skip(header_for(n).len() as int) == rest,
{
    reveal(decode::frame_start);
    lemma_header_round_trip(n, rest);
    assert((header_for(n) + rest).skip(header_for(n).len() as int) =~= rest);
}

/// A frame whose content does not fit the largest window is refused.
pub proof fn lemma_frame_refused(n: nat, rest: Seq<u8>)
    requires
        decode::MAXIMUM_ALLOWED_WINDOW_SIZE < n <= 0xFFFF_FFFF_FFFF_FFFF,
    ensures
        decode::decompress_from(header_for(n) + rest, Seq::empty()) == Err::<Seq<u8>, DecodeError>(
            DecodeError::WindowNotAllowed { size: n as u64 },
        ),
{
    reveal(decode::frame_start);
    lemma_header_round_trip(n, rest);
    bytes::lemma_le_len(ZSTD_MAGIC as nat, 4);
    assert((header_for(n) + rest).len() > 0);
}

// ---------------------------------------------------------------------------
// Blocks
// ---------------------------------------------------------------------------

/// The header of a block.
pub open spec fn block_head(last: bool, kind: nat, size: nat) -> Seq<u8> {
    bytes::le_bytes(
        (if last {
            1nat
        } else {
            0
        }) + 2 * kind + 8 * size,
        3,
    )
}

/// A block of bytes as they are.
pub open spec fn raw_block(b: Seq<u8>, last: bool) -> Seq<u8> {
    block_head(last, 0, b.len()) + b
}

/// A block of `n` times the byte `x`.
pub open spec fn rle_block(x: u8, n: nat, last: bool) -> Seq<u8> {
    block_head(last, 1, n) + seq![x]
}

/// A compressed block with the content `c`.
pub open spec fn coded_block(c: Seq<u8>, last: bool) -> Seq<u8> {
    block_head(last, 2, c.len()) + c
}

/// All bytes are the same.
pub open spec fn is_rle(b: Seq<u8>) -> bool {
    b.len() > 0 && forall|i: int| 0 <= i < b.len() ==> #[trigger] b[i] == b[0]
}

/// A block that is not compressed.
pub open spec fn plain_block(b: Seq<u8>, last: bool) -> Seq<u8> {
    if is_rle(b) {
        rle_block(b[0], b.len(), last)
    } else {
        raw_block(b, last)
    }
}

pub proof fn lemma_block_head_len(last: bool, kind: nat, size: nat)
    ensures
        block_head(last, kind, size).len() == 3,
{
    bytes::lemma_le_len(
        (if last {
            1nat
        } else {
            0
        }) + 2 * kind + 8 * size,
        3,
    );
}

fn push_block_head(out: &mut Vec<u8>, is_last: bool, kind: u64, size: usize)
    requires
        kind <= 3,
        size <= 131072,
    ensures
        final(out)@ == old(out)@ + block_head(is_last, kind as nat, size as nat),
{
    let last: u64 = if is_last {
        1
    } else {
        0
    };
    push_le(out, last + 2 * kind + 8 * size as u64, 3);
}

/// Appends a block of bytes as they are.
pub fn write_raw_block(out: &mut Vec<u8>, data: &[u8], is_last: bool)
    requires
        data@.len() <= 131072,
    ensures
        final(out)@ == old(out)@ + raw_block(data@, is_last),
{
    push_block_head(out, is_last, 0, data.len());
    out.extend_from_slice(data);
    assert(out@ =~= old(out)@ + raw_block(data@, is_last));
}

/// Appends a block of one repeated byte.
pub fn write_rle_block(out: &mut Vec<u8>, byte: u8, repeat_count: usize, is_last: bool)
    requires
        repeat_count <= 131072,
    ensures
        final(out)@ == old(out)@ + rle_block(byte, repeat_count as nat, is_last),
{
    push_block_head(out, is_last, 1, repeat_count);
    out.push(byte);
    assert(out@ =~= old(out)@ + rle_block(byte, repeat_count as nat, is_last));
}

/// Appends a compressed block.
pub fn write_compressed_block(out: &mut Vec<u8>, compressed: &[u8], is_last: bool)
    requires
        compressed@.len() <= 131072,
    ensures
        final(out)@ == old(out)@ + coded_block(compressed@, is_last),
{
    push_block_head(out, is_last, 2, compressed.len());
    out.extend_from_slice(compressed);
    assert(out@ =~= old(out)@ + coded_block(compressed@, is_last));
}

/// Whether all bytes are the same.
pub fn is_rle_block(data: &[u8]) -> (r: bool)
    ensures
        r == is_rle(data@),
{
    if data.len() == 0 {
        return false;
    }
    let first = data[0];
    let mut i: usize = 0;
    while i < data.len()
        invariant
            i <= data@.len(),
            data@.len() > 0,
            first == data@[0],
            forall|k: int| 0 <= k < i ==> #[trigger] data@[k] == first,
        decreases data@.len() - i,
    {
        if data[i] != first {
            assert(data@[i as int] != data@[0]);
            return false;
        }
        i = i + 1;
    }
    true
}

/// Appends a block that is not compressed.
pub fn write_plain_block(out: &mut Vec<u8>, data: &[u8], is_last: bool)
    requires
        data@.len() <= 131072,
    ensures
        final(out)@ == old(out)@ + plain_block(data@, is_last),
{
    if is_rle_block(data) {
        write_rle_block(out, data[0], data.len(), is_last);
    } else {
        write_raw_block(out, data, is_last);
    }
}

/// A block header is read back.
proof fn lemma_block_head(last: bool, kind: nat, size: nat, rest: Seq<u8>)
    requires
        kind <= 2,
        size <= 131072,
    ensures
        block_head(last, kind, size).len() == 3,
        decode::block_header(block_head(last, kind, size) + rest) == Ok::<
            BlockHeader,
            DecodeError,
        >(
            BlockHeader {
                last_block: last,
                block_type: decode::block_type_of(kind as int),
                decompressed_size: if kind == 2 {
                    0u32
                } else {
                    size as u32
                },
                content_size: if kind == 1 {
                    1u32
                } else {
                    size as u32
                },
            },
        ),
{
    let v: nat = (if last {
        1nat
    } else {
        0
    }) + 2 * kind + 8 * size;
    let src = block_head(last, kind, size) + rest;
    reveal_with_fuel(bytes::le_bytes, 4);
    assert(src[0] == v % 256);
    assert(src[1] == v / 256 % 256);
    assert(src[2] == v / 256 / 256 % 256);
    assert(src[0] as nat + 256 * src[1] as nat + 65536 * src[2] as nat == v);
    assert(v / 8 == size);
    assert((v / 2) as int % 4 == kind);
    assert((v % 2 == 1) == last);
}

/// A block in front of other bytes: a decoder in state `st` goes on in state `next`, or
/// is done where the block is the last.
#[verifier::opaque]
pub open spec fn leads(block: Seq<u8>, last: bool, st: DecState, next: DecState) -> bool {
    forall|rest: Seq<u8>| #[trigger]
        decode::decode_blocks(st, block + rest) == (if last {
            Ok::<(DecState, Seq<u8>), DecodeError>((next, rest))
        } else {
            decode::decode_blocks(next, rest)
        })
}

/// A block in front of other bytes: its header says whether it is the last, and a decoder
/// in state `st` reads it and is then in state `next`.
#[verifier::opaque]
pub open spec fn is_block(block: Seq<u8>, last: bool, st: DecState, next: DecState) -> bool {
    forall|rest: Seq<u8>|
        {
            let src = #[trigger] (block + rest);
            &&& decode::block_header(src) matches Ok(h)
            &&& h.last_block == last
            &&& 3 + h.content_size <= src.len()
            &&& decode::block_content(st, h, src.skip(3)) == Ok::<DecState, DecodeError>(next)
            &&& src.skip(3 + h.content_size) == rest
        }
}

/// What a decoder does with a block.
pub proof fn lemma_block_leads(block: Seq<u8>, last: bool, st: DecState, next: DecState)
    requires
        is_block(block, last, st, next),
    ensures
        leads(block, last, st, next),
{
    reveal(leads);
    reveal(is_block);
}

/// What a block that is not compressed does.
pub proof fn lemma_plain_block(b: Seq<u8>, last: bool, st: DecState)
    requires
        b.len() <= 131072,
    ensures
        is_block(plain_block(b, last), last, st, DecState { out: st.out + b, ..st }),
        leads(plain_block(b, last), last, st, DecState { out: st.out + b, ..st }),
{
    reveal(is_block);
    let block = plain_block(b, last);
    let next = DecState { out: st.out + b, ..st };
    reveal(decode::block_content);
    assert forall|rest: Seq<u8>|
        {
            let src = #[trigger] (block + rest);
            &&& decode::block_header(src) matches Ok(h)
            &&& h.last_block == last
            &&& 3 + h.content_size <= src.len()
            &&& decode::block_content(st, h, src.skip(3)) == Ok::<DecState, DecodeError>(next)
            &&& src.skip(3 + h.content_size) == rest
        } by {
        let src = block + rest;
        if is_rle(b) {
            let head = block_head(last, 1, b.len());
            lemma_block_head(last, 1, b.len(), seq![b[0]] + rest);
            assert(src =~= head + (seq![b[0]] + rest));
            assert(src.skip(3)[0] == b[0]);
            assert(src.skip(4) =~= rest);
            assert(b =~= Seq::new(b.len(), |i: int| src.skip(3)[0]));
        } else {
            let head = block_head(last, 0, b.len());
            lemma_block_head(last, 0, b.len(), b + rest);
            assert(src =~= head + (b + rest));
            assert(src.skip(3).take(b.len() as int) =~= b);
            assert(src.skip(3 + b.len() as int) =~= rest);
        }
    }
    lemma_block_leads(block, last, st, next);
}

/// What a compressed block does.
pub proof fn lemma_coded_block(c: Seq<u8>, last: bool, st: DecState, next: DecState)
    requires
        c.len() <= 131072,
        decode::compressed_block(st, c) == Ok::<DecState, DecodeError>(next),
    ensures
        is_block(coded_block(c, last), last, st, next),
        leads(coded_block(c, last), last, st, next),
{
    reveal(is_block);
    let block = coded_block(c, last);
    reveal(decode::block_content);
    assert forall|rest: Seq<u8>|
        {
            let src = #[trigger] (block + rest);
            &&& decode::block_header(src) matches Ok(h)
            &&& h.last_block == last
            &&& 3 + h.content_size <= src.len()
            &&& decode::block_content(st, h, src.skip(3)) == Ok::<DecState, DecodeError>(next)
            &&& src.skip(3 + h.content_size) == rest
        } by {
        let src = block + rest;
        lemma_block_head(last, 2, c.len(), c + rest);
        assert(src =~= block_head(last, 2, c.len()) + (c + rest));
        assert(src.skip(3).take(c.len() as int) =~= c);
        assert(src.skip(3 + c.len() as int) =~= rest);
    }
    lemma_block_leads(block, last, st, next);
}

/// `src` is one or more blocks and nothing else: only the last says that it is the last,
/// and a decoder in state `st` gets at most 128 KiB of each and `size` bytes of all.
pub open spec fn all_blocks(src: Seq<u8>, st: DecState, size: int) -> bool
    decreases src.len(),
{
    match decode::block_header(src) {
        Err(_) => false,
        Ok(h) => if 3 + h.content_size > src.len() {
            false
        } else {
            match decode::block_content(st, h, src.skip(3)) {
                Err(_) => false,
                Ok(next) => {
                    let made = next.out.len() - st.out.len();
                    let rest = src.skip(3 + h.content_size);
                    &&& 0 <= made <= 131072
                    &&& if h.last_block {
                        rest.len() == 0 && made == size
                    } else {
                        all_blocks(rest, next, size - made)
                    }
                },
            }
        },
    }
}

/// One block is blocks.
pub proof fn lemma_last_block(block: Seq<u8>, st: DecState, next: DecState)
    requires
        is_block(block, true, st, next),
        st.out.len() <= next.out.len() <= st.out.len() + 131072,
    ensures
        all_blocks(block, st, next.out.len() - st.out.len()),
{
    reveal(is_block);
    let nothing = Seq::<u8>::empty();
    assert(block + nothing =~= block);
}

/// A block and blocks are blocks.
pub proof fn lemma_more_blocks(
    block: Seq<u8>,
    rest: Seq<u8>,
    st: DecState,
    next: DecState,
    size: int,
)
    requires
        is_block(block, false, st, next),
        st.out.len() <= next.out.len() <= st.out.len() + 131072,
        all_blocks(rest, next, size),
    ensures
        all_blocks(block + rest, st, next.out.len() - st.out.len() + size),
{
    reveal(is_block);
    let src = block + rest;
    assert(src == block + rest);
}

/// Blocks one after the other.
pub proof fn lemma_leads_join(
    a: Seq<u8>,
    b: Seq<u8>,
    last: bool,
    s0: DecState,
    s1: DecState,
    s2: DecState,
)
    requires
        leads(a, false, s0, s1),
        leads(b, last, s1, s2),
    ensures
        leads(a + b, last, s0, s2),
{
    reveal(leads);
    assert forall|rest: Seq<u8>| #[trigger]
        decode::decode_blocks(s0, (a + b) + rest) == (if last {
            Ok::<(DecState, Seq<u8>), DecodeError>((s2, rest))
        } else {
            decode::decode_blocks(s2, rest)
        }) by {
        assert((a + b) + rest =~= a + (b + rest));
        assert(decode::decode_blocks(s0, a + (b + rest)) == decode::decode_blocks(s1, b + rest));
    }
}

/// A frame of blocks that give `data` is decoded to `data`, whatever follows it.
pub proof fn lemma_frame(
    blocks: Seq<u8>,
    n: nat,
    next: DecState,
    rest: Seq<u8>,
    out: Seq<u8>,
)
    requires
        leads(blocks, true, DecState::initial(), next),
        n <= decode::MAXIMUM_ALLOWED_WINDOW_SIZE,
    ensures
        decode::decompress_from(header_for(n) + blocks + rest, out) == decode::decompress_from(
            rest,
            out + next.out,
        ),
{
    reveal(leads);
    let head = header_for(n);
    let src = head + blocks + rest;
    assert(src =~= head + (blocks + rest));
    lemma_frame_start(n, blocks + rest);
    reveal(decode::frame_content);
    assert(decode::decode_blocks(DecState::initial(), blocks + rest) == Ok::<
        (DecState, Seq<u8>),
        DecodeError,
    >((next, rest)));
    bytes::lemma_le_len(ZSTD_MAGIC as nat, 4);
    assert(src.len() > 0);
}

} // verus!
