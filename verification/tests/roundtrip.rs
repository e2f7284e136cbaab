//! What the compressor writes, the decompressor reads back.
use zstd_rs::constants::ZSTD_MAGIC;
use zstd_rs::{compress, compress_to_vec, decompress};

#[test]
fn compress_empty() {
    let compressed = compress(&[], 1);
    assert!(compressed.len() >= 5);
    assert_eq!(&compressed[..4], &ZSTD_MAGIC.to_le_bytes());
}

#[test]
fn compress_small() {
    let data = b"hello world";
    let compressed = compress(data, 1);
    assert_eq!(&compressed[..4], &ZSTD_MAGIC.to_le_bytes());
    assert!(compressed.len() > 5);
}

#[test]
fn compress_repetitive() {
    let data = vec![42u8; 4096];
    let compressed = compress(&data, 1);
    assert_eq!(&compressed[..4], &ZSTD_MAGIC.to_le_bytes());
}

#[test]
fn compress_real_data() {
    let data: Vec<u8> = (0..1024u32)
        .flat_map(|i| (i as f32).to_le_bytes())
        .collect();
    let compressed = compress(&data, 1);
    assert_eq!(&compressed[..4], &ZSTD_MAGIC.to_le_bytes());
}

#[test]
fn roundtrip_self_contained() {
    let test_cases: Vec<(&str, Vec<u8>)> = vec![
        ("zeros", vec![0u8; 4096]),
        (
            "sequential",
            (0..4096u32).flat_map(|i| i.to_le_bytes()).collect(),
        ),
        (
            "f32_data",
            (0..256u32)
                .flat_map(|i| (i as f32 * 1.5).to_le_bytes())
                .collect(),
        ),
        ("repetitive", b"hello world! ".repeat(100)),
        ("small", b"abc".to_vec()),
    ];

    for (name, data) in &test_cases {
        let compressed = compress(data, 1);
        let decompressed = decompress(&compressed)
            .unwrap_or_else(|e| panic!("{}: decompress failed: {:?}", name, e));

        assert_eq!(decompressed.len(), data.len(), "{}: length mismatch", name);
        assert_eq!(&decompressed, data, "{}: data mismatch", name);
    }
}

#[test]
fn test_roundtrip_with_compressor() {
    let data = b"Hello, world! This is a test of the zstd compression and decompression round-trip. \
                      The quick brown fox jumps over the lazy dog. \
                      AAAAAAAAAAAAAAAAAAAAAAAAAAAAAAAAAAAAAAAA \
                      BBBBBBBBBBBBBBBBBBBBBBBBBBBBBBBBBBBBBBBB \
                      Hello, world! This is a test of the zstd compression and decompression round-trip.";
    let compressed = compress_to_vec(data);
    let decompressed = decompress(&compressed).unwrap();
    assert_eq!(decompressed, data);
}

#[test]
fn test_roundtrip_larger() {
    let data = Vec::with_capacity(16384);
    let compressed = compress_to_vec(&data);
    let decompressed = decompress(&compressed).unwrap();
    assert_eq!(decompressed, data);
}

#[test]
fn debug_f64_sequences() {
    let data: Vec<u8> = (0..131072u64)
        .flat_map(|i| (i as f64).to_le_bytes())
        .collect();
    let c = compress(&data, 1);
    println!("f64 level1: {} -> {}", data.len(), c.len());
    let d = decompress(&c).unwrap();
    assert_eq!(d.len(), data.len());
    assert_eq!(d, data);
}

#[test]
fn tiny_fse_weight_test() {
    let data: Vec<u8> = (0..50)
        .flat_map(|_| (0..130u8).collect::<Vec<_>>())
        .collect();
    let c = compress(&data, 1);
    let d = decompress(&c).unwrap();
    assert_eq!(d, data);
    println!(
        "130-sym uniform: {} -> {} ({:.1}%)",
        data.len(),
        c.len(),
        (1.0 - c.len() as f64 / data.len() as f64) * 100.0
    );

    // 200 symbols with a skewed distribution
    let mut data2 = Vec::new();
    for _ in 0..100 {
        for b in 0..200u8 {
            data2.push(b);
        }
    }
    for _ in 0..1000 {
        for b in 0..10u8 {
            data2.push(b);
        }
    }
    let c2 = compress(&data2, 1);
    let d2 = decompress(&c2).unwrap();
    assert_eq!(d2, data2);
    println!(
        "200-sym skewed: {} -> {} ({:.1}%)",
        data2.len(),
        c2.len(),
        (1.0 - c2.len() as f64 / data2.len() as f64) * 100.0
    );

    // 256 symbols, heavily skewed
    let mut data3 = Vec::new();
    for _ in 0..50 {
        for b in 0u16..256 {
            data3.push(b as u8);
        }
    }
    for _ in 0..5000 {
        data3.push(0);
        data3.push(1);
    }
    let c3 = compress(&data3, 1);
    let d3 = decompress(&c3).unwrap();
    assert_eq!(d3, data3);
    println!(
        "256-sym skewed: {} -> {} ({:.1}%)",
        data3.len(),
        c3.len(),
        (1.0 - c3.len() as f64 / data3.len() as f64) * 100.0
    );
}

#[test]
fn compression_ratios_by_level() {
    let patterns: Vec<(&str, Vec<u8>)> = vec![
        ("zeros_64K", vec![0u8; 65536]),
        (
            "text_50K",
            b"The quick brown fox jumps over the lazy dog. ".repeat(1100),
        ),
        (
            "seq_f64_32K",
            (0..4096u64)
                .flat_map(|i| (i as f64 * 0.5).to_le_bytes())
                .collect(),
        ),
    ];

    for (name, data) in &patterns {
        println!("\n{} ({} bytes):", name, data.len());
        for level in [0, 1, 3, 7, 11] {
            let compressed = compress(data, level);
            let decompressed = decompress(&compressed)
                .unwrap_or_else(|e| panic!("{} level {} decompress: {:?}", name, level, e));
            assert_eq!(decompressed.len(), data.len(), "{} level {}", name, level);
            assert_eq!(&decompressed, data, "{} level {}", name, level);
            let ratio = data.len() as f64 / compressed.len() as f64;
            println!(
                "  level {:2}: {:>8} -> {:>8}  ({:.2}x)",
                level,
                data.len(),
                compressed.len(),
                ratio
            );
        }
    }
}

/// A linear congruential generator: bytes without structure, the same on every run.
fn noise(len: usize, mut seed: u64) -> Vec<u8> {
    let mut out = Vec::with_capacity(len);
    for _ in 0..len {
        seed = seed
            .wrapping_mul(6364136223846793005)
            .wrapping_add(1442695040888963407);
        out.push((seed >> 56) as u8);
    }
    out
}

fn datasets() -> Vec<(&'static str, Vec<u8>)> {
    let mut few_symbols = noise(9000, 5);
    for b in few_symbols.iter_mut() {
        *b = match *b {
            0..=127 => b'a',
            128..=191 => b'b',
            192..=223 => b'c',
            224..=239 => b'd',
            _ => b'e',
        };
    }
    let mut skewed = noise(12000, 9);
    for b in skewed.iter_mut() {
        *b = b.leading_zeros() as u8 * 8 + (*b & 7);
    }
    let mut islands = noise(3000, 11);
    let head = islands.clone();
    islands.extend_from_slice(&[7u8; 700]);
    islands.extend_from_slice(&head);
    islands.extend_from_slice(&noise(50, 3));
    islands.extend_from_slice(&head[100..2000]);
    vec![
        ("empty", vec![]),
        ("one byte", vec![9]),
        ("two bytes", vec![1, 2]),
        ("zeros", vec![0u8; 20000]),
        ("text", b"The quick brown fox jumps over the lazy dog. ".repeat(300)),
        ("u32 counter", (0..4000u32).flat_map(|i| i.to_le_bytes()).collect()),
        ("f64 counter", (0..2000u64).flat_map(|i| (i as f64).to_le_bytes()).collect()),
        ("noise", noise(10000, 1)),
        ("few symbols", few_symbols),
        ("skewed", skewed),
        ("islands", islands),
        ("all bytes", (0..=255u8).cycle().take(5000).collect()),
    ]
}

fn roundtrip(level: i32) {
    for (name, data) in datasets() {
        let compressed = compress(&data, level);
        let decompressed = decompress(&compressed)
            .unwrap_or_else(|e| panic!("{} level {}: {:?}", name, level, e));
        assert_eq!(decompressed, data, "{} level {}", name, level);
    }
}

#[test]
fn roundtrip_level_0() {
    roundtrip(0);
}

#[test]
fn roundtrip_level_1() {
    roundtrip(1);
}

#[test]
fn roundtrip_level_2() {
    roundtrip(2);
}

#[test]
fn roundtrip_level_3() {
    roundtrip(3);
}

#[test]
fn roundtrip_level_4() {
    roundtrip(4);
}

#[test]
fn roundtrip_level_5() {
    roundtrip(5);
}

#[test]
fn roundtrip_level_6() {
    roundtrip(6);
}

#[test]
fn roundtrip_level_7() {
    roundtrip(7);
}

#[test]
fn roundtrip_level_8() {
    roundtrip(8);
}

#[test]
fn roundtrip_level_9() {
    roundtrip(9);
}

#[test]
fn roundtrip_level_10() {
    roundtrip(10);
}

#[test]
fn roundtrip_level_11() {
    roundtrip(11);
}

#[test]
fn roundtrip_below_level_0() {
    roundtrip(-5);
}

/// Blocks hold 128 KiB: literal runs, matches and noise across their borders.
#[test]
fn roundtrip_across_blocks() {
    let quiet = noise(300000, 21);
    let mut twice = noise(150000, 22);
    let copy = twice.clone();
    twice.extend_from_slice(&copy);
    let mut tail = vec![3u8; 200000];
    tail.extend_from_slice(&noise(140000, 23));
    let mut text = b"block after block of the same words, ".repeat(6000);
    text.extend_from_slice(&noise(1000, 24));
    for data in [quiet, twice, tail, text, vec![5u8; 131073], vec![5u8; 400000]] {
        for level in [0, 1, 3, 6] {
            let compressed = compress(&data, level);
            assert_eq!(decompress(&compressed), Ok(data.clone()), "level {}", level);
        }
    }
}

/// Frames one behind the other decompress to their contents one behind the other.
#[test]
fn roundtrip_concatenated() {
    let first = b"abcabcabcabcabcabcabcabcabc".to_vec();
    let second = noise(500, 2);
    let mut frames = compress(&first, 3);
    frames.extend_from_slice(&compress(&second, 0));
    frames.extend_from_slice(&compress(&[], 1));
    frames.extend_from_slice(&compress(&first, 11));
    let mut content = first.clone();
    content.extend_from_slice(&second);
    content.extend_from_slice(&first);
    assert_eq!(decompress(&frames), Ok(content));
}

#[test]
fn compress_to_vec_is_level_1() {
    let data = b"one two one two one two one two three".to_vec();
    assert_eq!(compress_to_vec(&data), compress(&data, 1));
}

/// Repetitive data gets smaller, noise hardly larger.
#[test]
fn sizes() {
    let text = b"The quick brown fox jumps over the lazy dog. ".repeat(1100);
    assert!(compress(&text, 1).len() < 200);
    let quiet = noise(10000, 7);
    assert_eq!(compress(&quiet, 1).len(), 4 + 1 + 2 + 3 + 10000);
}

/// A frame without data: magic, descriptor, size, and an empty last block.
#[test]
fn empty_frame_bytes() {
    assert_eq!(
        compress(&[], 1),
        vec![0x28, 0xB5, 0x2F, 0xFD, 0x20, 0, 1, 0, 0]
    );
}

/// At level 0 the data stands in the frame as it is; repeated bytes become one.
#[test]
fn plain_frame_bytes() {
    assert_eq!(
        compress(b"hello", 0),
        vec![0x28, 0xB5, 0x2F, 0xFD, 0x20, 5, 41, 0, 0, b'h', b'e', b'l', b'l', b'o']
    );
    assert_eq!(
        compress(&[0x42; 10], 0),
        vec![0x28, 0xB5, 0x2F, 0xFD, 0x20, 10, 83, 0, 0, 0x42]
    );
}
