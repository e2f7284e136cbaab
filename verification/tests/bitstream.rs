//! Bit writers and bit readers.
use zstd_rs::bitreader::{skip_padding, BitReader, BitReaderReversed};
use zstd_rs::bitstream::{BackwardBitWriter, BitWriter};
use zstd_rs::error::DecodeError;

#[test]
fn bit_writer_basic() {
    let mut w = BitWriter::new();
    w.write_bits(0b101, 3);
    w.write_bits(0b1100, 4);
    w.write_bits(0b1, 1);
    let bytes = w.finish();
    assert_eq!(bytes, vec![0xE5]);
}

#[test]
fn backward_writer_sentinel_only() {
    let w = BackwardBitWriter::new();
    let result = w.finish();
    assert_eq!(result, vec![0x01]);
}

#[test]
fn backward_writer_c_layout() {
    let mut w = BackwardBitWriter::new();
    w.add_bits(0xFF, 8);
    w.flush_bits();
    w.add_bits(0xAB, 8);
    let result = w.finish();
    assert_eq!(result, vec![0xFF, 0xAB, 0x01]);
}

#[test]
fn bit_writer_across_bytes() {
    let mut w = BitWriter::default();
    assert_eq!(w.len(), 0);
    w.write_bits(0x1FF, 9);
    assert_eq!(w.len(), 9);
    w.write_bits(0, 3);
    w.write_bits(0xFFFF_FFFF_FFFF_FFFF, 2);
    assert_eq!(w.len(), 14);
    assert_eq!(w.finish(), vec![0xFF, 0x31]);
}

#[test]
fn bit_writer_empty() {
    assert_eq!(BitWriter::new().finish(), Vec::<u8>::new());
}

#[test]
fn backward_writer_keeps_low_bits_only() {
    let mut w = BackwardBitWriter::default();
    w.add_bits(0xFF, 3);
    w.add_bits(0, 0);
    w.add_bits(0b10, 2);
    assert_eq!(w.finish(), vec![0b110111]);
}

/// What was written last is read first.
#[test]
fn backward_stream_is_read_back() {
    let mut w = BackwardBitWriter::new();
    w.add_bits(0x2A, 7);
    w.add_bits(0x1234, 16);
    w.flush_bits();
    w.add_bits(5, 3);
    let bytes = w.finish();
    let mut r = BitReaderReversed::new(&bytes);
    assert_eq!(skip_padding(&mut r), Ok(()));
    assert_eq!(r.bits_remaining(), 26);
    assert_eq!(r.get_bits(3), 5);
    assert_eq!(r.get_bits_triple(16, 0, 7), (0x1234, 0, 0x2A));
    assert_eq!(r.bits_remaining(), 0);
    assert_eq!(r.get_bits(4), 0);
    assert_eq!(r.bits_remaining(), -4);
}

#[test]
fn padding_without_end() {
    let mut r = BitReaderReversed::new(&[1, 0]);
    assert_eq!(
        skip_padding(&mut r),
        Err(DecodeError::ExtraPadding { skipped: 9 })
    );
}

#[test]
fn forward_reader() {
    let source = [0b1010_0110, 0xFF];
    let mut r = BitReader::new(&source);
    assert_eq!(r.bits_left(), 16);
    assert_eq!(r.get_bits(3), Ok(0b110));
    assert_eq!(r.get_bits(7), Ok(0b11_10100));
    assert_eq!(r.bits_read(), 10);
    r.return_bits(5);
    assert_eq!(r.get_bits(5), Ok(0b11_101));
    assert_eq!(
        r.get_bits(7),
        Err(DecodeError::NotEnoughBits { wanted: 7, left: 6 })
    );
    assert_eq!(
        r.get_bits(65),
        Err(DecodeError::TooManyBitsAtOnce { wanted: 65 })
    );
    assert_eq!(r.bits_left(), 6);
}
