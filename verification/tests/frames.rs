//! Frames one after the other, skippable frames, and what else may follow.
use zstd_rs::decode::FrameDecoder;
use zstd_rs::{compress, decompress};

fn skippable(kind: u8, content: &[u8]) -> Vec<u8> {
    let mut frame = vec![0x50 + kind, 0x2A, 0x4D, 0x18];
    frame.extend_from_slice(&(content.len() as u32).to_le_bytes());
    frame.extend_from_slice(content);
    frame
}

#[test]
fn skippable_frames_are_skipped() {
    let data = b"what counts".to_vec();
    for kind in 0..16 {
        let mut frames = skippable(kind, b"not looked at");
        frames.extend_from_slice(&compress(&data, 1));
        frames.extend_from_slice(&skippable(15 - kind, b""));
        assert_eq!(decompress(&frames), Ok(data.clone()));
    }
    assert_eq!(decompress(&skippable(3, &[1, 2, 3])), Ok(vec![]));
}

#[test]
fn trailing_bytes_are_ignored() {
    let data = b"some content".to_vec();
    let mut frames = compress(&data, 2);
    frames.extend_from_slice(b"and no frame");
    assert_eq!(decompress(&frames), Ok(data));
}

/// Without output there is nothing that bytes could trail.
#[test]
fn trailing_bytes_without_output() {
    let mut frames = compress(&[], 2);
    frames.extend_from_slice(b"and no frame");
    assert!(decompress(&frames).is_err());
}

/// A checksum is skipped, a dictionary id too.
#[test]
fn optional_fields() {
    let frame = [
        0x28, 0xB5, 0x2F, 0xFD, // magic
        0x26, // one segment, checksum, dictionary id of two bytes
        0x11, 0x22, 3, // dictionary id, content size
        0x19, 0, 0, b'a', b'b', b'c', // raw block
        1, 2, 3, 4, // checksum
    ];
    assert_eq!(decompress(&frame), Ok(b"abc".to_vec()));
}

#[test]
fn window_descriptor() {
    let frame = [0x28, 0xB5, 0x2F, 0xFD, 0, 0x48, 0x09, 0, 0, b'z'];
    assert_eq!(decompress(&frame), Ok(b"z".to_vec()));
}

/// The steps that `decompress` takes.
#[test]
fn step_by_step() {
    let data = b"abcabcabcabcabcabcabcabcabcabc".to_vec();
    let frame = compress(&data, 1);
    let mut decoder = FrameDecoder::new();
    assert_eq!(decoder.collect(), None);
    let n = decoder.reset(&frame).unwrap();
    assert_eq!(n, 6);
    assert_eq!(decoder.decode_all_blocks(&frame[n..]), Ok(frame.len() - n));
    assert_eq!(decoder.collect(), Some(data));
    assert_eq!(decoder.collect(), Some(vec![]));
}

/// No block holds more than 128 KiB, and none is longer than what it holds by more than
/// its header.
#[test]
fn block_sizes() {
    let mut data = vec![1u8; 5];
    let mut x = 1u64;
    for i in 0..400000u64 {
        x = x.wrapping_mul(6364136223846793005).wrapping_add(i);
        data.push(if i % 100000 < 60000 { (x >> 60) as u8 } else { 7 });
    }
    for level in [0, 1, 4] {
        let frame = compress(&data, level);
        let mut at = 9;
        let mut last = false;
        while !last {
            let v = frame[at] as usize | (frame[at + 1] as usize) << 8 | (frame[at + 2] as usize) << 16;
            last = v & 1 == 1;
            let size = v >> 3;
            assert!(size <= 131072);
            at += 3 + if (v >> 1) & 3 == 1 { 1 } else { size };
        }
        assert_eq!(at, frame.len());
        assert_eq!(decompress(&frame), Ok(data.clone()));
    }
}

/// The type and the content of each block of a frame.
fn blocks(frame: &[u8]) -> Vec<(usize, &[u8])> {
    let mut at = 5 + [1, 2, 4, 8][(frame[4] >> 6) as usize];
    let mut found = Vec::new();
    loop {
        let v = frame[at] as usize | (frame[at + 1] as usize) << 8 | (frame[at + 2] as usize) << 16;
        let size = if (v >> 1) & 3 == 1 { 1 } else { v >> 3 };
        found.push(((v >> 1) & 3, &frame[at + 3..at + 3 + size]));
        at += 3 + size;
        if v & 1 == 1 {
            assert_eq!(at, frame.len());
            return found;
        }
    }
}

/// Later blocks use the literal codes of the first one.
#[test]
fn literal_codes_are_used_again() {
    let mut data = Vec::new();
    let mut x = 1u64;
    for i in 0..500000u64 {
        x = x.wrapping_mul(6364136223846793005).wrapping_add(1442695040888963407);
        data.push((x >> 58) as u8);
        if i % 1000 == 0 {
            data.extend_from_slice(&[1, 2, 3, 4, 5, 6, 7, 8, 9, 10]);
        }
    }
    let frame = compress(&data, 1);
    let kinds: Vec<u8> = blocks(&frame).iter().map(|b| b.1[0] & 3).collect();
    assert!(blocks(&frame).iter().all(|b| b.0 == 2));
    assert_eq!(kinds[0], 2);
    assert!(kinds.len() >= 4 && kinds[1..].iter().all(|&k| k == 3));
    assert_eq!(decompress(&frame), Ok(data));
}

/// A frame is hardly longer than what it holds.
#[test]
fn frame_lengths() {
    let mut data = Vec::new();
    let mut x = 1u64;
    while data.len() < 600000 {
        x = x.wrapping_mul(6364136223846793005).wrapping_add(1442695040888963407);
        data.push((x >> 56) as u8);
    }
    // A long match between literals that fill no block
    let copy = data[1000..200000].to_vec();
    data.extend_from_slice(&copy);
    data.extend_from_slice(&copy);
    for n in [0, 1, 255, 256, 131072, 131073, 300000, data.len()] {
        for level in [0, 1, 5] {
            let frame = compress(&data[..n], level);
            assert!(frame.len() <= n + 13 + 3 * (2 * (n / 131072) + 1));
            assert!(blocks(&frame).len() <= 2 * (n / 131072) + 1);
            assert_eq!(decompress(&frame), Ok(data[..n].to_vec()));
        }
    }
}
