//! Errors of the decoder.
use vstd::prelude::*;

verus! {

/// Which of the three code tables of a sequences section an error speaks of.
#[derive(Debug, Clone, Copy, PartialEq, Eq, Structural)]
pub enum CodeKind {
    LiteralLength,
    Offset,
    MatchLength,
}

/// What can be wrong with compressed input.
#[allow(inconsistent_fields)]
#[derive(Debug, Clone, Copy, PartialEq, Eq, Structural)]
pub enum DecodeError {
    // Forward bit streams
    TooManyBitsAtOnce { wanted: usize },
    NotEnoughBits { wanted: usize, left: usize },
    // FSE tables
    AccuracyLogTooLarge { log: u8, max: u8 },
    AccuracyLogZero,
    TooManySymbols { symbols: usize },
    FseTableUninitialized,
    // Huffman tables
    HuffmanSourceEmpty,
    NotEnoughWeightBytes { have: usize, need: usize },
    NotEnoughPackedWeights { have: usize, need: usize },
    FseHeaderTooLong { used: usize, available: u8 },
    TooManyWeights { weights: usize },
    WeightTooLarge { weight: u8 },
    MissingWeights,
    LeftoverNotPowerOfTwo { leftover: u32 },
    MaxBitsTooLarge { bits: u8 },
    // Backward bit streams
    ExtraPadding { skipped: u32 },
    // Literals sections
    LiteralsHeaderTooShort { have: usize, need: u8 },
    UninitializedHuffmanTable,
    JumpTableTooShort { have: usize },
    LiteralStreamsTooShort { have: usize, need: usize },
    LiteralStreamMismatch { remaining: i64, expected: i64 },
    LiteralCountMismatch { decoded: usize, expected: u32 },
    // Sequences sections
    SequencesHeaderEmpty,
    SequencesHeaderTooShort { have: usize, need: u8 },
    MissingCompressionModes,
    MissingRleByte { kind: CodeKind },
    RleCodeTooLarge { kind: CodeKind, code: u8 },
    IllegalLiteralLengthCode { code: u8 },
    IllegalMatchLengthCode { code: u8 },
    NotEnoughSequenceBytes,
    ExtraBits { bits: i64 },
    // Sequence execution
    NotEnoughLiterals { wanted: usize, have: usize },
    ZeroOffset,
    OffsetTooLarge { offset: usize, have: usize },
    OutputTooLarge,
    // Blocks
    BlockHeaderTooShort,
    ReservedBlockType,
    BlockTooLarge { size: u32 },
    RleBlockTooShort,
    RawBlockTooShort,
    CompressedBlockTooShort,
    MalformedSectionHeader { expected: usize, have: usize },
    ChecksumTooShort,
    NotInitialized,
    // Frames
    MagicTooShort,
    SkipSizeTooShort,
    BadMagic { magic: u32 },
    FrameDescriptorTooShort,
    WindowDescriptorTooShort,
    DictionaryIdTooShort,
    ContentSizeTooShort,
    WindowTooSmall { size: u64 },
    WindowTooLarge { size: u64 },
    WindowNotAllowed { size: u64 },
    SkippableFramePastEnd,
}

} // verus!
