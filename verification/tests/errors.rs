//! Input that the decoder refuses, and how it says so.
use zstd_rs::decode::{read_frame_header, FrameDecoder, FrameDecoderError};
use zstd_rs::decompress;
use zstd_rs::error::{CodeKind, DecodeError};
use zstd_rs::execute::{execute_sequences, DecodeBuffer};
use zstd_rs::sequences::{
    decode_sequences, lookup_ll_code, lookup_ml_code, CompressionModes, FSEScratch, Sequence,
    SequencesHeader,
};

const MAGIC: [u8; 4] = [0x28, 0xB5, 0x2F, 0xFD];

fn with_magic(rest: &[u8]) -> Result<Vec<u8>, DecodeError> {
    let mut frame = MAGIC.to_vec();
    frame.extend_from_slice(rest);
    decompress(&frame)
}

/// A frame of one segment with content of 9 bytes, and then `blocks`.
fn with_header(blocks: &[u8]) -> Result<Vec<u8>, DecodeError> {
    let mut rest = vec![0x20, 9];
    rest.extend_from_slice(blocks);
    with_magic(&rest)
}

/// A frame with one compressed block.
fn with_block(content: &[u8]) -> Result<Vec<u8>, DecodeError> {
    let head = 5 + 8 * content.len();
    let mut blocks = vec![head as u8, (head >> 8) as u8, (head >> 16) as u8];
    blocks.extend_from_slice(content);
    with_header(&blocks)
}

#[test]
fn frame_header_errors() {
    assert_eq!(decompress(&[1, 2, 3]), Err(DecodeError::MagicTooShort));
    assert_eq!(
        decompress(&[0, 0, 0, 0, 0]),
        Err(DecodeError::BadMagic { magic: 0 })
    );
    assert_eq!(
        decompress(&[0x55, 0x2A, 0x4D, 0x18, 1, 0]),
        Err(DecodeError::SkipSizeTooShort)
    );
    assert_eq!(
        decompress(&[0x55, 0x2A, 0x4D, 0x18, 3, 0, 0, 0, 1, 2]),
        Err(DecodeError::SkippableFramePastEnd)
    );
    assert_eq!(with_magic(&[]), Err(DecodeError::FrameDescriptorTooShort));
    assert_eq!(with_magic(&[0]), Err(DecodeError::WindowDescriptorTooShort));
    assert_eq!(
        with_magic(&[0x23, 1, 2, 3]),
        Err(DecodeError::DictionaryIdTooShort)
    );
    assert_eq!(
        with_magic(&[0xE0, 1, 2, 3]),
        Err(DecodeError::ContentSizeTooShort)
    );
    assert_eq!(
        with_magic(&[0, 0xFF]),
        Err(DecodeError::WindowTooLarge { size: 4123168604160 })
    );
    assert_eq!(
        with_magic(&[0, 0x90]),
        Err(DecodeError::WindowNotAllowed { size: 268435456 })
    );
    assert_eq!(
        with_magic(&[0xA0, 1, 0, 0x40, 6]),
        Err(DecodeError::WindowNotAllowed { size: 104857601 })
    );
}

#[test]
fn skippable_header() {
    let e = read_frame_header(&[0x5F, 0x2A, 0x4D, 0x18, 7, 1, 0, 0]).unwrap_err();
    assert_eq!(e, FrameDecoderError::Skippable { length: 263 });
    assert_eq!(e.skip_frame_length(), Some(263));
    assert_eq!(
        FrameDecoderError::new(DecodeError::MagicTooShort).skip_frame_length(),
        None
    );
}

#[test]
fn block_errors() {
    assert_eq!(with_header(&[1, 0]), Err(DecodeError::BlockHeaderTooShort));
    assert_eq!(with_header(&[7, 0, 0]), Err(DecodeError::ReservedBlockType));
    assert_eq!(
        with_header(&[0x09, 0, 0x10]),
        Err(DecodeError::BlockTooLarge { size: 131073 })
    );
    assert_eq!(with_header(&[0x0B, 0, 0]), Err(DecodeError::RleBlockTooShort));
    assert_eq!(
        with_header(&[0x11, 0, 0, 1]),
        Err(DecodeError::RawBlockTooShort)
    );
    assert_eq!(
        with_header(&[0x15, 0, 0, 1]),
        Err(DecodeError::CompressedBlockTooShort)
    );
    assert_eq!(
        with_magic(&[0x24, 1, 0x09, 0, 0, b'x', 1, 2, 3]),
        Err(DecodeError::ChecksumTooShort)
    );
    assert_eq!(
        FrameDecoder::new().decode_all_blocks(&[1, 0, 0]),
        Err(DecodeError::NotInitialized)
    );
}

#[test]
fn section_errors() {
    // Five literals are announced, two are there
    assert_eq!(
        with_block(&[5 << 3, 1, 2]),
        Err(DecodeError::MalformedSectionHeader { expected: 5, have: 2 })
    );
    assert_eq!(with_block(&[0]), Err(DecodeError::SequencesHeaderEmpty));
    assert_eq!(
        with_block(&[0, 0, 1, 2]),
        Err(DecodeError::ExtraBits { bits: 16 })
    );
    assert_eq!(
        with_block(&[2 << 3, 8, 9, 0]),
        Ok(vec![8, 9])
    );
    assert_eq!(
        with_block(&[0x01 + (4 << 3), 8, 0]),
        Ok(vec![8, 8, 8, 8])
    );
}

#[test]
fn sequences_header_errors() {
    let parse = |source: &[u8]| SequencesHeader::new().parse_from_header(source);
    assert_eq!(parse(&[]), Err(DecodeError::SequencesHeaderEmpty));
    assert_eq!(
        parse(&[5]),
        Err(DecodeError::SequencesHeaderTooShort { have: 1, need: 2 })
    );
    assert_eq!(
        parse(&[200, 1]),
        Err(DecodeError::SequencesHeaderTooShort { have: 2, need: 3 })
    );
    assert_eq!(
        parse(&[255, 1, 1]),
        Err(DecodeError::SequencesHeaderTooShort { have: 3, need: 4 })
    );
    let mut header = SequencesHeader::new();
    assert_eq!(header.parse_from_header(&[255, 1, 2, 0]), Ok(4));
    assert_eq!(header.num_sequences, 0x7F00 + 513);
}

/// All three kinds of codes have no table.
fn decode_rle(num: u32, source: &[u8]) -> Result<Vec<(u32, u32, u32)>, DecodeError> {
    let header = SequencesHeader { num_sequences: num, modes: Some(CompressionModes(0x54)) };
    let mut target = Vec::new();
    decode_sequences(&header, source, &mut FSEScratch::new(), &mut target)?;
    Ok(target.iter().map(|s| (s.ll, s.ml, s.of)).collect())
}

#[test]
fn sequences_errors() {
    assert_eq!(decode_rle(1, &[0, 2, 0, 0b101]), Ok(vec![(0, 3, 5)]));
    assert_eq!(
        decode_rle(1, &[]),
        Err(DecodeError::MissingRleByte { kind: CodeKind::LiteralLength })
    );
    assert_eq!(
        decode_rle(1, &[0]),
        Err(DecodeError::MissingRleByte { kind: CodeKind::Offset })
    );
    assert_eq!(
        decode_rle(1, &[0, 2]),
        Err(DecodeError::MissingRleByte { kind: CodeKind::MatchLength })
    );
    assert_eq!(
        decode_rle(1, &[36]),
        Err(DecodeError::RleCodeTooLarge { kind: CodeKind::LiteralLength, code: 36 })
    );
    assert_eq!(
        decode_rle(1, &[0, 32]),
        Err(DecodeError::RleCodeTooLarge { kind: CodeKind::Offset, code: 32 })
    );
    assert_eq!(
        decode_rle(1, &[0, 2, 53]),
        Err(DecodeError::RleCodeTooLarge { kind: CodeKind::MatchLength, code: 53 })
    );
    assert_eq!(
        decode_rle(1, &[0, 2, 0, 0b1101]),
        Err(DecodeError::ExtraBits { bits: 1 })
    );
    assert_eq!(
        decode_rle(2, &[0, 2, 0, 0b101]),
        Err(DecodeError::NotEnoughSequenceBytes)
    );
    assert_eq!(
        decode_rle(1, &[0, 2, 0, 0]),
        Err(DecodeError::ExtraPadding { skipped: 9 })
    );
    let header = SequencesHeader { num_sequences: 1, modes: None };
    assert_eq!(
        decode_sequences(&header, &[1], &mut FSEScratch::new(), &mut Vec::new()),
        Err(DecodeError::MissingCompressionModes)
    );
    assert_eq!(
        lookup_ll_code(36),
        Err(DecodeError::IllegalLiteralLengthCode { code: 36 })
    );
    assert_eq!(lookup_ll_code(25), Ok((64, 6)));
    assert_eq!(
        lookup_ml_code(53),
        Err(DecodeError::IllegalMatchLengthCode { code: 53 })
    );
    assert_eq!(lookup_ml_code(52), Ok((65539, 16)));
}

fn run(sequences: &[Sequence], literals: &[u8]) -> Result<Vec<u8>, DecodeError> {
    let mut buffer = DecodeBuffer::new(1024);
    let mut hist = [1, 4, 8];
    execute_sequences(sequences, literals, &mut buffer, &mut hist)?;
    Ok(buffer.drain())
}

/// What was decoded before an error stays.
#[test]
fn kept_after_errors() {
    let mut buffer = DecodeBuffer::new(64);
    buffer.push(b"abc");
    let mut hist = [1, 4, 8];
    let bad = [Sequence { ll: 1, ml: 4, of: 103 }];
    assert_eq!(
        execute_sequences(&bad, b"d", &mut buffer, &mut hist),
        Err(DecodeError::OffsetTooLarge { offset: 100, have: 4 })
    );
    assert!(buffer.drain().starts_with(b"abc"));
    let mut header = SequencesHeader::new();
    header.parse_from_header(&[3, 0x54]).unwrap();
    assert!(header.parse_from_header(&[5]).is_err());
    assert!(header.parse_from_header(&[255, 0, 0]).is_err());
    assert_eq!(header.num_sequences, 3);
    assert_eq!(header.parse_from_header(&[0]), Ok(1));
    assert_eq!(header.num_sequences, 0);
    assert_eq!(header.modes.map(|m| m.0), Some(0x54));
    let mut decoder = FrameDecoder::new();
    assert_eq!(decoder.decode_all_blocks(&[1, 0, 0]), Err(DecodeError::NotInitialized));
    assert_eq!(decoder.collect(), None);
    let frame = [0x28, 0xB5, 0x2F, 0xFD, 0x20, 2, 8, 0, 0, b'x', 6, 0, 0];
    let n = decoder.reset(&frame).unwrap();
    assert_eq!(
        decoder.decode_all_blocks(&frame[n..]),
        Err(DecodeError::ReservedBlockType)
    );
    assert!(!decoder.frame_finished);
    assert_eq!(decoder.collect(), Some(b"x".to_vec()));
}

#[test]
fn execution_errors() {
    assert_eq!(
        run(&[Sequence { ll: 2, ml: 5, of: 5 }], &[1, 2, 3]),
        Ok(vec![1, 2, 1, 2, 1, 2, 1, 3])
    );
    assert_eq!(
        run(&[Sequence { ll: 4, ml: 5, of: 5 }], &[1, 2, 3]),
        Err(DecodeError::NotEnoughLiterals { wanted: 4, have: 3 })
    );
    assert_eq!(
        run(&[Sequence { ll: 0, ml: 5, of: 3 }], &[1, 2, 3]),
        Err(DecodeError::ZeroOffset)
    );
    assert_eq!(
        run(&[Sequence { ll: 2, ml: 5, of: 6 }], &[1, 2, 3]),
        Err(DecodeError::OffsetTooLarge { offset: 3, have: 2 })
    );
    assert_eq!(
        run(&[Sequence { ll: 1, ml: u32::MAX, of: 1 }], &[1]),
        Err(DecodeError::OutputTooLarge)
    );
    let mut buffer = DecodeBuffer::new(8);
    buffer.push(&[1]);
    assert_eq!(buffer.repeat(0, 1), Err(DecodeError::ZeroOffset));
    assert_eq!(buffer.len(), 1);
}
