//! Frames written by hand, and input that is refused.
use zstd_rs::constants::ZSTD_MAGIC;
use zstd_rs::decompress;

#[test]
fn test_empty_input() {
    let result = decompress(&[]);
    assert!(result.is_ok());
    assert!(result.unwrap().is_empty());
}

#[test]
fn test_bad_magic() {
    let result = decompress(&[0, 0, 0, 0, 0]);
    assert!(result.is_err());
}

#[test]
fn test_roundtrip_raw() {
    let data = b"hello";
    let mut frame = Vec::new();
    frame.extend_from_slice(&ZSTD_MAGIC.to_le_bytes());
    frame.push(0x20); // single segment, content size in one byte
    frame.push(5);
    let bh = 1u32 | (0u32 << 1) | (5u32 << 3);
    frame.push((bh & 0xFF) as u8);
    frame.push(((bh >> 8) & 0xFF) as u8);
    frame.push(((bh >> 16) & 0xFF) as u8);
    frame.extend_from_slice(data);

    let result = decompress(&frame).unwrap();
    assert_eq!(result, data);
}

#[test]
fn test_roundtrip_rle() {
    let mut frame = Vec::new();
    frame.extend_from_slice(&ZSTD_MAGIC.to_le_bytes());
    frame.push(0x20); // single segment, content size in one byte
    frame.push(10);
    let bh = 1u32 | (1u32 << 1) | (10u32 << 3);
    frame.push((bh & 0xFF) as u8);
    frame.push(((bh >> 8) & 0xFF) as u8);
    frame.push(((bh >> 16) & 0xFF) as u8);
    frame.push(0x42);

    let result = decompress(&frame).unwrap();
    assert_eq!(result, vec![0x42; 10]);
}
