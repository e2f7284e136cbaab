//! Zstandard decoder: frames, blocks, and `decompress`.
use crate::bits;
use crate::bits::pow2_u64;
use crate::bytes;
use crate::bytes::read_le;
use crate::constants::ZSTD_MAGIC;
use crate::error::DecodeError;
use crate::execute;
use crate::execute::{execute_sequences, DecodeBuffer, OffsetHistory};
use crate::huffman::{HufTab, HuffmanTable};
use crate::literals;
use crate::literals::{decode_literals, LiteralsSection, LiteralsSectionType};
use crate::sequences;
use crate::sequences::{decode_sequences, CodeTabs, FSEScratch, Sequence, SequencesHeader};
use vstd::arithmetic::power2::*;
use vstd::prelude::*;

verus! {

pub const MIN_WINDOW_SIZE: u64 = 1024;

/// 2^41 + 7 * 2^38.
pub const MAX_WINDOW_SIZE: u64 = 4123168604160;

pub const MAX_BLOCK_SIZE: u32 = 131072;

/// Frames that ask for more memory than this are refused.
pub const MAXIMUM_ALLOWED_WINDOW_SIZE: u64 = 104857600;

// ---------------------------------------------------------------------------
// Blocks
// ---------------------------------------------------------------------------

#[derive(Debug, Clone, Copy, PartialEq, Eq, Structural)]
pub enum BlockType {
    Raw,
    RLE,
    Compressed,
    Reserved,
}

pub open spec fn block_type_of(t: int) -> BlockType {
    if t == 0 {
        BlockType::Raw
    } else if t == 1 {
        BlockType::RLE
    } else if t == 2 {
        BlockType::Compressed
    } else {
        BlockType::Reserved
    }
}

#[derive(Debug, Clone, Copy, PartialEq, Eq, Structural)]
pub struct BlockHeader {
    pub last_block: bool,
    pub block_type: BlockType,
    pub decompressed_size: u32,
    pub content_size: u32,
}

/// The header of the block that starts with the number `v`.
pub open spec fn block_header_of(v: nat) -> Result<BlockHeader, DecodeError> {
    let block_type = block_type_of((v / 2) as int % 4);
    let size = v / 8;
    if block_type is Reserved {
        Err(DecodeError::ReservedBlockType)
    } else if size > 131072 {
        Err(DecodeError::BlockTooLarge { size: size as u32 })
    } else {
        Ok(
            BlockHeader {
                last_block: v % 2 == 1,
                block_type,
                decompressed_size: if block_type is Compressed {
                    0u32
                } else {
                    size as u32
                },
                content_size: if block_type is RLE {
                    1u32
                } else {
                    size as u32
                },
            },
        )
    }
}

/// The header of the block at the start of `src`.
pub open spec fn block_header(src: Seq<u8>) -> Result<BlockHeader, DecodeError> {
    if src.len() < 3 {
        Err(DecodeError::BlockHeaderTooShort)
    } else {
        block_header_of(src[0] as nat + 256 * src[1] as nat + 65536 * src[2] as nat)
    }
}

/// Reads the header of a block; it takes three bytes.
pub fn read_block_header(source: &[u8]) -> (r: Result<(BlockHeader, u8), DecodeError>)
    ensures
        match r {
            Ok((h, n)) => block_header(source@) == Ok::<BlockHeader, DecodeError>(h) && n == 3
                && source@.len() >= 3 && h.content_size <= 131072 && h.decompressed_size <= 131072,
            Err(e) => block_header(source@) == Err::<BlockHeader, DecodeError>(e),
        },
{
    if source.len() < 3 {
        return Err(DecodeError::BlockHeaderTooShort);
    }
    let v: u32 = source[0] as u32 + 256 * source[1] as u32 + 65536 * source[2] as u32;
    let last_block = v % 2 == 1;
    let raw_type = (v / 2) % 4;
    let block_type = if raw_type == 0 {
        BlockType::Raw
    } else if raw_type == 1 {
        BlockType::RLE
    } else if raw_type == 2 {
        BlockType::Compressed
    } else {
        return Err(DecodeError::ReservedBlockType);
    };
    let size = v / 8;
    if size > MAX_BLOCK_SIZE {
        return Err(DecodeError::BlockTooLarge { size });
    }
    let decompressed_size = match block_type {
        BlockType::Compressed => 0,
        _ => size,
    };
    let content_size = match block_type {
        BlockType::RLE => 1,
        _ => size,
    };
    Ok((BlockHeader { last_block, block_type, decompressed_size, content_size }, 3))
}

/// What a decoder keeps between the blocks of a frame: the tables, the offsets, and
/// the output so far.
#[verifier::ext_equal]
pub struct DecState {
    pub huf: HufTab,
    pub fse: CodeTabs,
    pub hist: OffsetHistory,
    pub out: Seq<u8>,
}

impl DecState {
    pub open spec fn initial() -> DecState {
        DecState {
            huf: HufTab::empty(),
            fse: CodeTabs::empty(),
            hist: OffsetHistory::initial(),
            out: Seq::empty(),
        }
    }
}

/// Decodes the sequences section `raw` of a block with the given literals.
pub open spec fn block_sequences(st: DecState, lits: Seq<u8>, raw: Seq<u8>) -> Result<
    DecState,
    DecodeError,
> {
    match sequences::sequences_header(raw) {
        Err(e) => Err(e),
        Ok(h) => {
            let body = raw.skip(h.len as int);
            if h.num == 0 {
                if body.len() > 0 {
                    Err(DecodeError::ExtraBits { bits: (8 * body.len()) as i64 })
                } else {
                    Ok(DecState { out: st.out + lits, ..st })
                }
            } else {
                match sequences::section_sequences(st.fse, h.modes, h.num, body) {
                    Err(e) => Err(e),
                    Ok((seqs, fse)) => match execute::run_block(seqs, lits, st.out, st.hist) {
                        Err(e) => Err(e),
                        Ok((out, hist)) => Ok(DecState { huf: st.huf, fse, hist, out }),
                    },
                }
            }
        },
    }
}

/// Decodes the content `raw` of a compressed block.
#[verifier::opaque]
pub open spec fn compressed_block(st: DecState, raw: Seq<u8>) -> Result<DecState, DecodeError> {
    match literals::literals_header(raw) {
        Err(e) => Err(e),
        Ok((section, n)) => {
            let rest = raw.skip(n as int);
            let len = section.content_len();
            if rest.len() < len {
                Err(
                    DecodeError::MalformedSectionHeader {
                        expected: len as usize,
                        have: rest.len() as usize,
                    },
                )
            } else {
                match literals::section_literals(section, st.huf, rest.take(len as int)) {
                    Err(e) => Err(e),
                    Ok((lits, huf)) => block_sequences(
                        DecState { huf, ..st },
                        lits,
                        rest.skip(len as int),
                    ),
                }
            }
        },
    }
}

/// The content `raw` of a compressed block starts with a whole literals section.
pub open spec fn has_literals(raw: Seq<u8>) -> bool {
    literals::literals_header(raw) matches Ok((section, n)) && n + section.content_len()
        <= raw.len()
}

/// Decodes the content of a block, which starts `src`.
#[verifier::opaque]
pub open spec fn block_content(st: DecState, h: BlockHeader, src: Seq<u8>) -> Result<
    DecState,
    DecodeError,
> {
    match h.block_type {
        BlockType::RLE => if src.len() == 0 {
            Err(DecodeError::RleBlockTooShort)
        } else {
            Ok(
                DecState {
                    out: st.out + Seq::new(h.decompressed_size as nat, |i: int| src[0]),
                    ..st
                },
            )
        },
        BlockType::Raw => if src.len() < h.content_size {
            Err(DecodeError::RawBlockTooShort)
        } else {
            Ok(DecState { out: st.out + src.take(h.content_size as int), ..st })
        },
        BlockType::Compressed => if src.len() < h.content_size {
            Err(DecodeError::CompressedBlockTooShort)
        } else {
            compressed_block(st, src.take(h.content_size as int))
        },
        BlockType::Reserved => Err(DecodeError::ReservedBlockType),
    }
}

/// Decodes the blocks of a frame, which start `src`; also gives what follows them.
pub open spec fn decode_blocks(st: DecState, src: Seq<u8>) -> Result<
    (DecState, Seq<u8>),
    DecodeError,
>
    decreases src.len(),
{
    match block_header(src) {
        Err(e) => Err(e),
        Ok(h) => match block_content(st, h, src.skip(3)) {
            Err(e) => Err(e),
            Ok(next) => {
                let rest = src.skip(3 + h.content_size);
                if h.last_block {
                    Ok((next, rest))
                } else {
                    proof {
                        lemma_block_content_len(st, h, src.skip(3));
                    }
                    decode_blocks(next, rest)
                }
            },
        },
    }
}

pub proof fn lemma_block_content_len(st: DecState, h: BlockHeader, src: Seq<u8>)
    requires
        block_content(st, h, src) is Ok,
        h.block_type is RLE ==> h.content_size == 1,
    ensures
        h.content_size <= src.len(),
{
    reveal(block_content);
}

pub proof fn lemma_decode_blocks_rest(st: DecState, src: Seq<u8>)
    ensures
        decode_blocks(st, src) matches Ok((_, rest)) ==> rest.len() + 3 <= src.len(),
    decreases src.len(),
{
    if let Ok(h) = block_header(src) {
        if let Ok(next) = block_content(st, h, src.skip(3)) {
            lemma_block_content_len(st, h, src.skip(3));
            lemma_decode_blocks_rest(next, src.skip(3 + h.content_size));
        }
    }
}

// ---------------------------------------------------------------------------
// Frame headers
// ---------------------------------------------------------------------------

/// The first byte of a frame header.
#[derive(Debug, Clone, Copy, PartialEq, Eq, Structural)]
pub struct FrameDescriptor(pub u8);

impl FrameDescriptor {
    pub open spec fn single_segment(self) -> bool {
        (self.0 as int / 32) % 2 == 1
    }

    pub open spec fn has_checksum(self) -> bool {
        (self.0 as int / 4) % 2 == 1
    }

    pub open spec fn dict_id_len(self) -> nat {
        let flag = self.0 as int % 4;
        if flag == 3 {
            4
        } else {
            flag as nat
        }
    }

    pub open spec fn content_size_len(self) -> nat {
        let flag = self.0 as int / 64;
        if flag == 0 {
            if self.single_segment() {
                1
            } else {
                0
            }
        } else if flag == 1 {
            2
        } else if flag == 2 {
            4
        } else {
            8
        }
    }

    pub fn frame_content_size_flag(&self) -> (f: u8)
        ensures
            f == self.0 as int / 64,
    {
        self.0 / 64
    }

    pub fn single_segment_flag(&self) -> (b: bool)
        ensures
            b == self.single_segment(),
    {
        (self.0 / 32) % 2 == 1
    }

    pub fn content_checksum_flag(&self) -> (b: bool)
        ensures
            b == self.has_checksum(),
    {
        (self.0 / 4) % 2 == 1
    }

    pub fn dict_id_flag(&self) -> (f: u8)
        ensures
            f == self.0 as int % 4,
    {
        self.0 % 4
    }

    pub fn frame_content_size_bytes(&self) -> (n: u8)
        ensures
            n == self.content_size_len(),
    {
        match self.frame_content_size_flag() {
            0 => if self.single_segment_flag() {
                1
            } else {
                0
            },
            1 => 2,
            2 => 4,
            _ => 8,
        }
    }

    pub fn dictionary_id_bytes(&self) -> (n: u8)
        ensures
            n == self.dict_id_len(),
    {
        match self.dict_id_flag() {
            0 => 0,
            1 => 1,
            2 => 2,
            _ => 4,
        }
    }
}

#[derive(Debug, Clone, Copy, PartialEq, Eq, Structural)]
pub struct FrameHeader {
    pub descriptor: FrameDescriptor,
    pub window_descriptor: u8,
    pub frame_content_size: u64,
}

/// The window that a window descriptor asks for.
pub open spec fn descriptor_window(b: u8) -> nat {
    let base = pow2((10 + b as int / 8) as nat);
    base + (base / 8) * (b as nat % 8)
}

/// The window that a frame header asks for.
pub open spec fn window_of(h: FrameHeader) -> Result<u64, DecodeError> {
    if h.descriptor.single_segment() {
        Ok(h.frame_content_size)
    } else {
        let size = descriptor_window(h.window_descriptor);
        if size < MIN_WINDOW_SIZE {
            Err(DecodeError::WindowTooSmall { size: size as u64 })
        } else if size >= MAX_WINDOW_SIZE {
            Err(DecodeError::WindowTooLarge { size: size as u64 })
        } else {
            Ok(size as u64)
        }
    }
}

impl FrameHeader {
    pub fn window_size(&self) -> (r: Result<u64, DecodeError>)
        ensures
            r == window_of(*self),
    {
        if self.descriptor.single_segment_flag() {
            Ok(self.frame_content_size)
        } else {
            let exp = self.window_descriptor / 8;
            let mantissa = self.window_descriptor % 8;
            proof {
                lemma2_to64();
                lemma2_to64_rest();
                bits::lemma_pow2_monotone((10 + exp) as nat, 41);
            }
            let window_base = pow2_u64(10 + exp as u32);
            assert((window_base / 8) * mantissa <= 0x400_0000_0000 * 8) by (nonlinear_arith)
                requires
                    window_base / 8 <= 0x400_0000_0000,
                    mantissa < 8,
            ;
            let window_size = window_base + (window_base / 8) * mantissa as u64;
            if window_size < MIN_WINDOW_SIZE {
                Err(DecodeError::WindowTooSmall { size: window_size })
            } else if window_size >= MAX_WINDOW_SIZE {
                Err(DecodeError::WindowTooLarge { size: window_size })
            } else {
                Ok(window_size)
            }
        }
    }

    pub fn frame_content_size(&self) -> (n: u64)
        ensures
            n == self.frame_content_size,
    {
        self.frame_content_size
    }
}

/// Why no frame starts at a place: there is a skippable frame, or its header is
/// malformed.
#[derive(Debug, Clone, Copy, PartialEq, Eq, Structural)]
pub enum FrameDecoderError {
    Header(DecodeError),
    Skippable { length: u32 },
}

impl FrameDecoderError {
    pub fn new(error: DecodeError) -> (e: FrameDecoderError)
        ensures
            e == FrameDecoderError::Header(error),
    {
        FrameDecoderError::Header(error)
    }

    pub fn skip(length: u32) -> (e: FrameDecoderError)
        ensures
            e == (FrameDecoderError::Skippable { length }),
    {
        FrameDecoderError::Skippable { length }
    }

    pub fn skip_frame_length(&self) -> (n: Option<u32>)
        ensures
            n == (match *self {
                FrameDecoderError::Skippable { length } => Some(length),
                FrameDecoderError::Header(_) => None::<u32>,
            }),
    {
        match *self {
            FrameDecoderError::Skippable { length } => Some(length),
            FrameDecoderError::Header(_) => None,
        }
    }
}

/// The frame header at the start of `src`, and its length.
pub open spec fn frame_header(src: Seq<u8>) -> Result<(FrameHeader, nat), FrameDecoderError> {
    let magic = bytes::le_value(src.take(4));
    if src.len() < 4 {
        Err(FrameDecoderError::Header(DecodeError::MagicTooShort))
    } else if 0x184D2A50 <= magic <= 0x184D2A5F {
        if src.len() < 8 {
            Err(FrameDecoderError::Header(DecodeError::SkipSizeTooShort))
        } else {
            Err(FrameDecoderError::Skippable { length: bytes::le_value(src.subrange(4, 8)) as u32 })
        }
    } else if magic != ZSTD_MAGIC {
        Err(FrameDecoderError::Header(DecodeError::BadMagic { magic: magic as u32 }))
    } else if src.len() < 5 {
        Err(FrameDecoderError::Header(DecodeError::FrameDescriptorTooShort))
    } else {
        let descriptor = FrameDescriptor(src[4]);
        let window_len: nat = if descriptor.single_segment() {
            0
        } else {
            1
        };
        let dict_at = 5 + window_len;
        let size_at = dict_at + descriptor.dict_id_len();
        let end = size_at + descriptor.content_size_len();
        if src.len() < dict_at {
            Err(FrameDecoderError::Header(DecodeError::WindowDescriptorTooShort))
        } else if src.len() < size_at {
            Err(FrameDecoderError::Header(DecodeError::DictionaryIdTooShort))
        } else if src.len() < end {
            Err(FrameDecoderError::Header(DecodeError::ContentSizeTooShort))
        } else {
            let value = bytes::le_value(src.subrange(size_at as int, end as int));
            Ok(
                (
                    FrameHeader {
                        descriptor,
                        window_descriptor: if window_len == 1 {
                            src[5]
                        } else {
                            0u8
                        },
                        frame_content_size: (if descriptor.content_size_len() == 2 {
                            value + 256
                        } else {
                            value
                        }) as u64,
                    },
                    end,
                ),
            )
        }
    }
}

/// Reads the frame header at the start of `source`; also gives its length.
pub fn read_frame_header(source: &[u8]) -> (r: Result<(FrameHeader, u8), FrameDecoderError>)
    ensures
        match r {
            Ok((h, n)) => frame_header(source@) == Ok::<(FrameHeader, nat), FrameDecoderError>(
                (h, n as nat),
            ) && 5 <= n <= source@.len(),
            Err(e) => {
                &&& frame_header(source@) == Err::<(FrameHeader, nat), FrameDecoderError>(e)
                &&& e is Skippable ==> source@.len() >= 8
            },
        },
{
    let have = source.len();
    if have < 4 {
        return Err(FrameDecoderError::new(DecodeError::MagicTooShort));
    }
    proof {
        lemma2_to64();
    }
    let magic_bytes = &source[0..4];
    assert(magic_bytes@ =~= source@.take(4));
    let magic = read_le(magic_bytes) as u32;
    if 0x184D2A50 <= magic && magic <= 0x184D2A5F {
        if have < 8 {
            return Err(FrameDecoderError::new(DecodeError::SkipSizeTooShort));
        }
        return Err(FrameDecoderError::skip(read_le(&source[4..8]) as u32));
    }
    if magic != ZSTD_MAGIC {
        return Err(FrameDecoderError::new(DecodeError::BadMagic { magic }));
    }
    if have < 5 {
        return Err(FrameDecoderError::new(DecodeError::FrameDescriptorTooShort));
    }
    let descriptor = FrameDescriptor(source[4]);
    let mut at: usize = 5;
    let mut window_descriptor: u8 = 0;
    if !descriptor.single_segment_flag() {
        if have < 6 {
            return Err(FrameDecoderError::new(DecodeError::WindowDescriptorTooShort));
        }
        window_descriptor = source[5];
        at = 6;
    }
    let dict_id_len = descriptor.dictionary_id_bytes() as usize;
    if have - at < dict_id_len {
        return Err(FrameDecoderError::new(DecodeError::DictionaryIdTooShort));
    }
    at = at + dict_id_len;
    let size_len = descriptor.frame_content_size_bytes() as usize;
    if have - at < size_len {
        return Err(FrameDecoderError::new(DecodeError::ContentSizeTooShort));
    }
    let mut frame_content_size = read_le(&source[at..at + size_len]);
    if size_len == 2 {
        frame_content_size = frame_content_size + 256;
    }
    at = at + size_len;
    Ok((FrameHeader { descriptor, window_descriptor, frame_content_size }, at as u8))
}

/// The frame header at the start of `src` where it asks for a window that is granted,
/// and its length.
#[verifier::opaque]
pub open spec fn frame_start(src: Seq<u8>) -> Result<(FrameHeader, nat), FrameDecoderError> {
    match frame_header(src) {
        Err(e) => Err(e),
        Ok((h, n)) => match window_of(h) {
            Err(e) => Err(FrameDecoderError::Header(e)),
            Ok(w) => if w > MAXIMUM_ALLOWED_WINDOW_SIZE {
                Err(FrameDecoderError::Header(DecodeError::WindowNotAllowed { size: w }))
            } else {
                Ok((h, n))
            },
        },
    }
}

/// Decodes blocks after the state `st`, and skips the checksum behind them where there is
/// one.  Gives the state at their end and what follows.
pub open spec fn blocks_and_checksum(st: DecState, checksum: bool, src: Seq<u8>) -> Result<
    (DecState, Seq<u8>),
    DecodeError,
> {
    match decode_blocks(st, src) {
        Err(e) => Err(e),
        Ok((end, rest)) => if checksum {
            if rest.len() < 4 {
                Err(DecodeError::ChecksumTooShort)
            } else {
                Ok((end, rest.skip(4)))
            }
        } else {
            Ok((end, rest))
        },
    }
}

/// Decodes what follows a frame header: the blocks and the checksum, which is not
/// looked at.  Gives the content and what follows the frame.
#[verifier::opaque]
pub open spec fn frame_content(h: FrameHeader, src: Seq<u8>) -> Result<
    (DecState, Seq<u8>),
    DecodeError,
> {
    blocks_and_checksum(DecState::initial(), h.descriptor.has_checksum(), src)
}

pub proof fn lemma_frame_rest(h: FrameHeader, src: Seq<u8>, n: nat)
    requires
        frame_start(src) == Ok::<(FrameHeader, nat), FrameDecoderError>((h, n)),
    ensures
        5 <= n <= src.len(),
        frame_content(h, src.skip(n as int)) matches Ok((_, rest)) ==> rest.len() < src.len(),
{
    reveal(frame_start);
    reveal(frame_content);
    lemma_decode_blocks_rest(DecState::initial(), src.skip(n as int));
}

/// Decodes the frames of `src` after the output `out` of earlier ones.  Once there is
/// output, whatever follows the last frame and starts no other is ignored.
pub open spec fn decompress_from(src: Seq<u8>, out: Seq<u8>) -> Result<Seq<u8>, DecodeError>
    decreases src.len(),
{
    if src.len() == 0 {
        Ok(out)
    } else {
        match frame_start(src) {
            Ok((h, n)) => match frame_content(h, src.skip(n as int)) {
                Err(e) => Err(e),
                Ok((st, rest)) => {
                    proof {
                        lemma_frame_rest(h, src, n);
                    }
                    decompress_from(rest, out + st.out)
                },
            },
            Err(FrameDecoderError::Skippable { length }) => if 8 + length > src.len() {
                Err(DecodeError::SkippableFramePastEnd)
            } else {
                decompress_from(src.skip(8 + length), out)
            },
            Err(FrameDecoderError::Header(e)) => if out.len() > 0 {
                Ok(out)
            } else {
                Err(e)
            },
        }
    }
}

// ---------------------------------------------------------------------------
// Decoder
// ---------------------------------------------------------------------------

/// What a decoder keeps between the blocks of a frame.
pub struct DecoderScratch {
    pub huf: HuffmanTable,
    pub fse: FSEScratch,
    pub buffer: DecodeBuffer,
    pub offset_hist: [u32; 3],
    pub literals_buffer: Vec<u8>,
    pub sequences: Vec<Sequence>,
}

impl DecoderScratch {
    pub open spec fn view(&self) -> DecState {
        DecState {
            huf: self.huf@,
            fse: self.fse@,
            hist: OffsetHistory::of_seq(self.offset_hist@),
            out: self.buffer@,
        }
    }

    pub open spec fn wf(&self) -> bool {
        &&& self.huf.wf()
        &&& self.fse.wf()
    }

    /// The scratch can be reset.
    pub open spec fn is_usable(&self) -> bool {
        &&& self.huf.fse_table.max_symbol == 255
        &&& self.fse.has_kinds()
    }

    pub fn new(window_size: usize) -> (s: DecoderScratch)
        ensures
            s.wf(),
            s@ == DecState::initial(),
            s.buffer.window_size == window_size,
            s.literals_buffer@.len() == 0,
            s.sequences@.len() == 0,
    {
        DecoderScratch {
            huf: HuffmanTable::new(),
            fse: FSEScratch::new(),
            buffer: DecodeBuffer::new(window_size),
            offset_hist: [1, 4, 8],
            literals_buffer: Vec::new(),
            sequences: Vec::new(),
        }
    }

    pub fn reset(&mut self, window_size: usize)
        requires
            old(self).is_usable(),
        ensures
            final(self).wf(),
            final(self)@ == DecState::initial(),
            final(self).buffer.window_size == window_size,
            final(self).literals_buffer@.len() == 0,
            final(self).sequences@.len() == 0,
    {
        self.offset_hist = [1, 4, 8];
        self.literals_buffer.clear();
        self.sequences.clear();
        self.buffer.reset(window_size);
        self.fse.reset();
        self.huf.reset();
    }
}

/// Decodes the sequences section `raw` of a block whose literals are decoded.
fn decode_block_sequences(workspace: &mut DecoderScratch, raw: &[u8]) -> (r: Result<
    (),
    DecodeError,
>)
    requires
        old(workspace).wf(),
        raw@.len() <= 131072,
        old(workspace).literals_buffer@.len() <= u32::MAX,
    ensures
        final(workspace).is_usable(),
        final(workspace).buffer.window_size == old(workspace).buffer.window_size,
        old(workspace)@.out.is_prefix_of(final(workspace)@.out),
        match r {
            Ok(_) => final(workspace).wf() && block_sequences(
                old(workspace)@,
                old(workspace).literals_buffer@,
                raw@,
            ) == Ok::<DecState, DecodeError>(final(workspace)@),
            Err(e) => block_sequences(
                old(workspace)@,
                old(workspace).literals_buffer@,
                raw@,
            ) == Err::<DecState, DecodeError>(e),
        },
{
    let mut header = SequencesHeader::new();
    let header_len = match header.parse_from_header(raw) {
        Ok(n) => n as usize,
        Err(e) => {
            return Err(e);
        },
    };
    let body = &raw[header_len..raw.len()];
    assert(body@ =~= raw@.skip(header_len as int));
    if header.num_sequences != 0 {
        match decode_sequences(&header, body, &mut workspace.fse, &mut workspace.sequences) {
            Ok(_) => {},
            Err(e) => {
                return Err(e);
            },
        }
        match execute_sequences(
            &workspace.sequences,
            &workspace.literals_buffer,
            &mut workspace.buffer,
            &mut workspace.offset_hist,
        ) {
            Ok(_) => {},
            Err(e) => {
                return Err(e);
            },
        }
    } else {
        if body.len() > 0 {
            return Err(DecodeError::ExtraBits { bits: 8 * body.len() as i64 });
        }
        workspace.buffer.push(&workspace.literals_buffer);
        workspace.sequences.clear();
    }
    Ok(())
}

/// Decodes the content `raw` of a compressed block.
pub fn decompress_block(workspace: &mut DecoderScratch, raw: &[u8]) -> (r: Result<(), DecodeError>)
    requires
        old(workspace).wf(),
        raw@.len() <= 131072,
    ensures
        final(workspace).is_usable(),
        final(workspace).buffer.window_size == old(workspace).buffer.window_size,
        old(workspace)@.out.is_prefix_of(final(workspace)@.out),
        match r {
            Ok(_) => final(workspace).wf() && compressed_block(old(workspace)@, raw@) == Ok::<
                DecState,
                DecodeError,
            >(final(workspace)@),
            Err(e) => {
                &&& compressed_block(old(workspace)@, raw@) == Err::<DecState, DecodeError>(e)
                &&& !has_literals(raw@) ==> *final(workspace) == *old(workspace)
            },
        },
{
    reveal(compressed_block);
    let mut section = LiteralsSection::new();
    let header_len = match section.parse_from_header(raw) {
        Ok(n) => n as usize,
        Err(e) => {
            return Err(e);
        },
    };
    let rest = &raw[header_len..raw.len()];
    assert(rest@ =~= raw@.skip(header_len as int));
    let content_len = match section.compressed_size {
        Some(n) => n as usize,
        None => match section.ls_type {
            LiteralsSectionType::RLE => 1,
            _ => section.regenerated_size as usize,
        },
    };
    if rest.len() < content_len {
        return Err(
            DecodeError::MalformedSectionHeader { expected: content_len, have: rest.len() },
        );
    }
    let raw_literals = &rest[0..content_len];
    assert(raw_literals@ =~= rest@.take(content_len as int));
    assert(raw_literals@.take(content_len as int) =~= raw_literals@);
    workspace.literals_buffer.clear();
    match decode_literals(
        &section,
        &mut workspace.huf,
        raw_literals,
        &mut workspace.literals_buffer,
    ) {
        Ok(_) => {},
        Err(e) => {
            return Err(e);
        },
    }
    let raw_sequences = &rest[content_len..rest.len()];
    assert(raw_sequences@ =~= rest@.skip(content_len as int));
    decode_block_sequences(workspace, raw_sequences)
}

/// Decodes the content of a block, which starts `source`.
pub fn decode_block_content(
    header: &BlockHeader,
    workspace: &mut DecoderScratch,
    source: &[u8],
) -> (r: Result<u64, DecodeError>)
    requires
        old(workspace).wf(),
        header.content_size <= 131072,
        header.block_type is RLE ==> header.content_size == 1,
    ensures
        final(workspace).is_usable(),
        final(workspace).buffer.window_size == old(workspace).buffer.window_size,
        old(workspace)@.out.is_prefix_of(final(workspace)@.out),
        match r {
            Ok(n) => {
                &&& final(workspace).wf()
                &&& block_content(old(workspace)@, *header, source@) == Ok::<
                    DecState,
                    DecodeError,
                >(final(workspace)@)
                &&& n == header.content_size
                &&& n <= source@.len()
            },
            Err(e) => {
                &&& block_content(old(workspace)@, *header, source@) == Err::<
                    DecState,
                    DecodeError,
                >(e)
                &&& !(header.block_type is Compressed) || source@.len() < header.content_size
                    ==> *final(workspace) == *old(workspace)
            },
        },
{
    reveal(block_content);
    let size = header.content_size as usize;
    match header.block_type {
        BlockType::RLE => {
            if source.len() == 0 {
                return Err(DecodeError::RleBlockTooShort);
            }
            workspace.buffer.push_repeated(source[0], header.decompressed_size as usize);
            assert(workspace@.out =~= old(workspace)@.out + Seq::new(
                header.decompressed_size as nat,
                |i: int| source@[0],
            ));
        },
        BlockType::Raw => {
            if source.len() < size {
                return Err(DecodeError::RawBlockTooShort);
            }
            let raw = &source[0..size];
            assert(raw@ =~= source@.take(size as int));
            workspace.buffer.push(raw);
        },
        BlockType::Compressed => {
            if source.len() < size {
                return Err(DecodeError::CompressedBlockTooShort);
            }
            let raw = &source[0..size];
            assert(raw@ =~= source@.take(size as int));
            match decompress_block(workspace, raw) {
                Ok(_) => {},
                Err(e) => {
                    return Err(e);
                },
            }
        },
        BlockType::Reserved => {
            return Err(DecodeError::ReservedBlockType);
        },
    }
    Ok(header.content_size as u64)
}

/// Decodes one frame after another.
pub struct FrameDecoder {
    pub scratch: Option<DecoderScratch>,
    pub frame_header: Option<FrameHeader>,
    pub frame_finished: bool,
}

impl FrameDecoder {
    /// A frame can be started.
    pub open spec fn wf(&self) -> bool {
        self.scratch matches Some(s) ==> s.is_usable()
    }

    /// The header `h` of a frame was read and none of its blocks.
    pub open spec fn has_started(&self, h: FrameHeader) -> bool {
        &&& self.scratch matches Some(s)
        &&& s.wf()
        &&& s@ == DecState::initial()
        &&& window_of(h) == Ok::<u64, DecodeError>(s.buffer.window_size as u64)
        &&& self.frame_header == Some(h)
        &&& !self.frame_finished
    }

    pub fn new() -> (d: FrameDecoder)
        ensures
            d.wf(),
            d.scratch is None,
            d.frame_header is None,
            !d.frame_finished,
    {
        FrameDecoder { scratch: None, frame_header: None, frame_finished: false }
    }

    /// Reads the header of a frame; returns its length.
    pub fn reset(&mut self, source: &[u8]) -> (r: Result<usize, FrameDecoderError>)
        requires
            old(self).wf(),
        ensures
            final(self).wf(),
            match r {
                Ok(n) => {
                    &&& frame_start(source@) matches Ok((h, len))
                    &&& final(self).has_started(h)
                    &&& n == len
                    &&& 5 <= n <= source@.len()
                },
                Err(e) => {
                    &&& frame_start(source@) == Err::<(FrameHeader, nat), FrameDecoderError>(e)
                    &&& e is Skippable ==> source@.len() >= 8
                    &&& *final(self) == *old(self)
                },
            },
    {
        reveal(frame_start);
        let (frame_header, header_size) = match read_frame_header(source) {
            Ok(x) => x,
            Err(e) => {
                return Err(e);
            },
        };
        let window_size = match frame_header.window_size() {
            Ok(w) => w,
            Err(e) => {
                return Err(FrameDecoderError::new(e));
            },
        };
        if window_size > MAXIMUM_ALLOWED_WINDOW_SIZE {
            return Err(
                FrameDecoderError::new(DecodeError::WindowNotAllowed { size: window_size }),
            );
        }
        match &mut self.scratch {
            Some(s) => s.reset(window_size as usize),
            None => {
                self.scratch = Some(DecoderScratch::new(window_size as usize));
            },
        }
        self.frame_header = Some(frame_header);
        self.frame_finished = false;
        Ok(header_size as usize)
    }

    /// Whether a checksum follows the blocks.
    pub open spec fn has_checksum(&self) -> bool {
        self.frame_header matches Some(h) && h.descriptor.has_checksum()
    }

    /// Decodes the blocks of the frame that was started; returns the bytes read, the
    /// checksum included.
    pub fn decode_all_blocks(&mut self, source: &[u8]) -> (r: Result<usize, DecodeError>)
        requires
            old(self).scratch matches Some(s) ==> s.wf(),
        ensures
            final(self).wf(),
            final(self).frame_header == old(self).frame_header,
            match old(self).scratch {
                None => r == Err::<usize, DecodeError>(DecodeError::NotInitialized)
                    && *final(self) == *old(self),
                Some(s0) => match r {
                    Ok(n) => {
                        &&& n <= source@.len()
                        &&& final(self).frame_finished
                        &&& final(self).scratch matches Some(s)
                        &&& blocks_and_checksum(s0@, old(self).has_checksum(), source@) == Ok::<
                            (DecState, Seq<u8>),
                            DecodeError,
                        >((s@, source@.skip(n as int)))
                    },
                    Err(e) => {
                        &&& blocks_and_checksum(s0@, old(self).has_checksum(), source@) == Err::<
                            (DecState, Seq<u8>),
                            DecodeError,
                        >(e)
                        &&& final(self).scratch matches Some(s)
                        &&& s0@.out.is_prefix_of(s@.out)
                        &&& final(self).frame_finished == (old(self).frame_finished
                            || decode_blocks(s0@, source@) is Ok)
                    },
                },
            },
    {
        let mut scratch = match self.scratch.take() {
            Some(s) => s,
            None => {
                return Err(DecodeError::NotInitialized);
            },
        };
        let result = decode_blocks_into(&mut scratch, source);
        self.scratch = Some(scratch);
        let mut at = match result {
            Ok(n) => n,
            Err(e) => {
                return Err(e);
            },
        };
        self.frame_finished = true;
        match self.frame_header {
            Some(h) => {
                if h.descriptor.content_checksum_flag() {
                    if source.len() - at < 4 {
                        return Err(DecodeError::ChecksumTooShort);
                    }
                    assert(source@.skip(at as int).skip(4) =~= source@.skip(at as int + 4));
                    at = at + 4;
                }
            },
            None => {},
        }
        Ok(at)
    }

    /// Takes the decoded bytes out.
    pub fn collect(&mut self) -> (r: Option<Vec<u8>>)
        requires
            old(self).wf(),
        ensures
            final(self).wf(),
            match r {
                Some(bytes) => {
                    &&& old(self).scratch matches Some(s)
                    &&& bytes@ == s@.out
                    &&& final(self).scratch matches Some(t)
                    &&& t@ == (DecState { out: Seq::empty(), ..s@ })
                },
                None => old(self).scratch is None && final(self).scratch is None,
            },
            final(self).frame_header == old(self).frame_header,
            final(self).frame_finished == old(self).frame_finished,
    {
        match &mut self.scratch {
            Some(s) => Some(s.buffer.drain()),
            None => None,
        }
    }
}

/// Decodes the blocks at the start of `source`; returns the bytes read.
fn decode_blocks_into(scratch: &mut DecoderScratch, source: &[u8]) -> (r: Result<
    usize,
    DecodeError,
>)
    requires
        old(scratch).wf(),
    ensures
        final(scratch).is_usable(),
        final(scratch).buffer.window_size == old(scratch).buffer.window_size,
        old(scratch)@.out.is_prefix_of(final(scratch)@.out),
        match r {
            Ok(n) => n <= source@.len() && decode_blocks(old(scratch)@, source@) == Ok::<
                (DecState, Seq<u8>),
                DecodeError,
            >((final(scratch)@, source@.skip(n as int))),
            Err(e) => decode_blocks(old(scratch)@, source@) == Err::<
                (DecState, Seq<u8>),
                DecodeError,
            >(e),
        },
{
    let mut at: usize = 0;
    let ghost whole = decode_blocks(scratch@, source@);
    assert(source@.skip(0) =~= source@);
    loop
        invariant
            scratch.wf(),
            scratch.buffer.window_size == old(scratch).buffer.window_size,
            old(scratch)@.out.is_prefix_of(scratch@.out),
            at <= source@.len(),
            whole == decode_blocks(old(scratch)@, source@),
            whole == decode_blocks(scratch@, source@.skip(at as int)),
        decreases source@.len() - at,
    {
        let rest = &source[at..source.len()];
        assert(rest@ =~= source@.skip(at as int));
        let (header, header_len) = match read_block_header(rest) {
            Ok(x) => x,
            Err(e) => {
                return Err(e);
            },
        };
        let content = &rest[3..rest.len()];
        assert(content@ =~= rest@.skip(3));
        let n = match decode_block_content(&header, scratch, content) {
            Ok(n) => n as usize,
            Err(e) => {
                return Err(e);
            },
        };
        assert(rest@.skip(3 + n as int) =~= source@.skip(at + 3 + n as int));
        at = at + 3 + n;
        if header.last_block {
            return Ok(at);
        }
    }
}

/// Decompresses one or more frames, one after the other.
///
/// Skippable frames are skipped.  Dictionaries are not supported.
pub fn decompress(data: &[u8]) -> (r: Result<Vec<u8>, DecodeError>)
    ensures
        match r {
            Ok(bytes) => decompress_from(data@, Seq::empty()) == Ok::<Seq<u8>, DecodeError>(
                bytes@,
            ),
            Err(e) => decompress_from(data@, Seq::empty()) == Err::<Seq<u8>, DecodeError>(e),
        },
{
    let mut output: Vec<u8> = Vec::new();
    let mut decoder = FrameDecoder::new();
    let mut pos: usize = 0;
    let ghost whole = decompress_from(data@, Seq::empty());
    assert(data@.skip(0) =~= data@);
    assert(output@ =~= Seq::empty());
    while pos < data.len()
        invariant
            pos <= data@.len(),
            decoder.wf(),
            whole == decompress_from(data@, Seq::empty()),
            whole == decompress_from(data@.skip(pos as int), output@),
        decreases data@.len() - pos,
    {
        let rest = &data[pos..data.len()];
        assert(rest@ =~= data@.skip(pos as int));
        let header_len = match decoder.reset(rest) {
            Ok(n) => n,
            Err(e) => {
                match e {
                    FrameDecoderError::Skippable { length } => {
                        if length as usize > rest.len() - 8 {
                            return Err(DecodeError::SkippableFramePastEnd);
                        }
                        assert(rest@.skip(8 + length as int) =~= data@.skip(
                            pos + 8 + length as int,
                        ));
                        pos = pos + 8 + length as usize;
                        continue;
                    },
                    FrameDecoderError::Header(e) => {
                        if output.len() > 0 {
                            return Ok(output);
                        }
                        return Err(e);
                    },
                }
            },
        };
        reveal(frame_content);
        let blocks = &rest[header_len..rest.len()];
        assert(blocks@ =~= rest@.skip(header_len as int));
        let n = match decoder.decode_all_blocks(blocks) {
            Ok(n) => n,
            Err(e) => {
                return Err(e);
            },
        };
        match decoder.collect() {
            Some(mut collected) => {
                output.append(&mut collected);
            },
            None => {},
        }
        assert(blocks@.skip(n as int) =~= data@.skip(pos + header_len + n as int));
        pos = pos + header_len + n;
    }
    Ok(output)
}

} // verus!
