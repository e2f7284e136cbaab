//! Literals sections and Huffman codes.
use zstd_rs::error::DecodeError;
use zstd_rs::huf::{build_huffman_table, HufCode};
use zstd_rs::huf_codes::assign_codes;
use zstd_rs::huf_lengths::huffman_lengths;
use zstd_rs::huf_weights::encode_weights_fse;
use zstd_rs::huffman::{decode_huf_weights_from_fse, decode_stream, HuffmanTable};
use zstd_rs::lit_section::{
    build_huffman_codes, encode_huffman_tree, encode_literals, encode_literals_huffman,
    encode_literals_treeless, LiteralCodes,
};
use zstd_rs::literals::{
    decode_literals, decompress_literals, LiteralsSection, LiteralsSectionType,
};

/// Two symbols of one bit each: one weight is written, the other follows from it.
const TWO_SYMBOLS: [u8; 2] = [128, 0x10];

/// Symbol 0 takes one bit, symbols 1 and 2 take two.
const THREE_SYMBOLS: [u8; 2] = [129, 0x21];

fn section(regenerated_size: u32, compressed_size: u32, num_streams: u8) -> LiteralsSection {
    LiteralsSection {
        regenerated_size,
        compressed_size: Some(compressed_size),
        num_streams: Some(num_streams),
        ls_type: LiteralsSectionType::Compressed,
    }
}

fn decode(tree: &[u8], streams: &[u8], size: u32, num: u8) -> Result<Vec<u8>, DecodeError> {
    let mut source = tree.to_vec();
    source.extend_from_slice(streams);
    let header = section(size, source.len() as u32, num);
    let mut target = Vec::new();
    decode_literals(&header, &mut HuffmanTable::new(), &source, &mut target)?;
    Ok(target)
}

#[test]
fn one_stream() {
    assert_eq!(decode(&TWO_SYMBOLS, &[0b1101], 3, 1), Ok(vec![1, 0, 1]));
    // 1, then 00, then 01
    assert_eq!(
        decode(&THREE_SYMBOLS, &[0b110001], 3, 1),
        Ok(vec![0, 1, 2])
    );
}

#[test]
fn four_streams() {
    let streams = [1, 0, 1, 0, 1, 0, 0b11, 0b10, 0b111, 0b1];
    assert_eq!(decode(&TWO_SYMBOLS, &streams, 4, 4), Ok(vec![1, 0, 1, 1]));
}

#[test]
fn stream_errors() {
    assert_eq!(
        decode(&TWO_SYMBOLS, &[1, 2, 3], 4, 4),
        Err(DecodeError::JumpTableTooShort { have: 3 })
    );
    assert_eq!(
        decode(&TWO_SYMBOLS, &[100, 0, 0, 0, 0, 0], 4, 4),
        Err(DecodeError::LiteralStreamsTooShort { have: 0, need: 100 })
    );
    assert_eq!(
        decode(&THREE_SYMBOLS, &[1, 0, 1, 0, 1, 0, 2, 2, 2, 2], 4, 4),
        Err(DecodeError::LiteralStreamMismatch { remaining: -3, expected: -2 })
    );
    assert_eq!(
        decode(&TWO_SYMBOLS, &[0b11], 5, 1),
        Err(DecodeError::LiteralCountMismatch { decoded: 1, expected: 5 })
    );
    assert_eq!(
        decode(&TWO_SYMBOLS, &[0], 5, 1),
        Err(DecodeError::ExtraPadding { skipped: 9 })
    );
    let mut header = section(5, 1, 1);
    header.ls_type = LiteralsSectionType::Treeless;
    assert_eq!(
        decode_literals(&header, &mut HuffmanTable::new(), &[1], &mut Vec::new()),
        Err(DecodeError::UninitializedHuffmanTable)
    );
}

/// A section without a tree uses the tree of the section before it.
#[test]
fn treeless() {
    let mut table = HuffmanTable::new();
    let mut first = Vec::new();
    let source = [128, 0x10, 0b1101];
    assert_eq!(
        decode_literals(&section(3, 3, 1), &mut table, &source, &mut first),
        Ok(3)
    );
    let mut header = section(2, 1, 1);
    header.ls_type = LiteralsSectionType::Treeless;
    let mut second = Vec::new();
    assert_eq!(
        decode_literals(&header, &mut table, &[0b110], &mut second),
        Ok(1)
    );
    assert_eq!(second, vec![1, 0]);
}

/// Without a tree the table stays as it is, also where the section is refused.
#[test]
fn treeless_keeps_the_table() {
    let mut table = HuffmanTable::new();
    let mut header = section(2, 1, 1);
    header.ls_type = LiteralsSectionType::Treeless;
    let mut target = Vec::new();
    assert_eq!(
        decompress_literals(&header, &mut table, &[0b110], &mut target),
        Err(DecodeError::UninitializedHuffmanTable)
    );
    assert_eq!((table.max_num_bits, target.len()), (0, 0));
    table.build_decoder(&TWO_SYMBOLS).unwrap();
    header.regenerated_size = 5;
    assert_eq!(
        decompress_literals(&header, &mut table, &[0b110], &mut target),
        Err(DecodeError::LiteralCountMismatch { decoded: 2, expected: 5 })
    );
    header.regenerated_size = 2;
    let mut again = Vec::new();
    assert_eq!(decompress_literals(&header, &mut table, &[0b110], &mut again), Ok(1));
    assert_eq!(again, vec![1, 0]);
}

/// What follows the content of a section is not read.
#[test]
fn longer_sources() {
    let mut target = Vec::new();
    let source = [128, 0x10, 0b1101, 99, 98];
    assert_eq!(
        decompress_literals(&section(3, 3, 1), &mut HuffmanTable::new(), &source, &mut target),
        Ok(3)
    );
    assert_eq!(target, vec![1, 0, 1]);
    let raw = LiteralsSection {
        regenerated_size: 2,
        compressed_size: None,
        num_streams: None,
        ls_type: LiteralsSectionType::Raw,
    };
    let mut plain = Vec::new();
    assert_eq!(
        decode_literals(&raw, &mut HuffmanTable::new(), b"abc", &mut plain),
        Ok(2)
    );
    assert_eq!(plain, b"ab");
}

#[test]
fn tree_errors() {
    let build = |source: &[u8]| HuffmanTable::new().build_decoder(source);
    assert_eq!(build(&[]), Err(DecodeError::HuffmanSourceEmpty));
    assert_eq!(
        build(&[50, 1]),
        Err(DecodeError::NotEnoughWeightBytes { have: 1, need: 50 })
    );
    assert_eq!(
        build(&[130, 1]),
        Err(DecodeError::NotEnoughPackedWeights { have: 1, need: 2 })
    );
    assert_eq!(
        build(&[1, 0x10, 0x3F]),
        Err(DecodeError::FseHeaderTooLong { used: 2, available: 1 })
    );
    assert_eq!(
        build(&[128, 0xC0]),
        Err(DecodeError::WeightTooLarge { weight: 12 })
    );
    assert_eq!(build(&[128, 0]), Err(DecodeError::MissingWeights));
    assert_eq!(
        build(&[129, 0x31]),
        Err(DecodeError::LeftoverNotPowerOfTwo { leftover: 3 })
    );
    assert_eq!(
        build(&[129, 0xBB]),
        Err(DecodeError::MaxBitsTooLarge { bits: 12 })
    );
    let mut endless = vec![0x10, 0x3F];
    endless.extend_from_slice(&[0xFF; 100]);
    assert_eq!(
        decode_huf_weights_from_fse(&endless, 102),
        Err(DecodeError::TooManyWeights { weights: 256 })
    );
}

#[test]
fn section_headers() {
    let mut s = LiteralsSection::new();
    assert_eq!(
        s.parse_from_header(&[]),
        Err(DecodeError::NotEnoughBits { wanted: 2, left: 0 })
    );
    assert_eq!(
        s.parse_from_header(&[0x0C]),
        Err(DecodeError::LiteralsHeaderTooShort { have: 1, need: 3 })
    );
    assert_eq!(s.parse_from_header(&[5 << 3]), Ok(1));
    assert_eq!((s.regenerated_size, s.compressed_size), (5, None));
    assert_eq!(s.ls_type, LiteralsSectionType::Raw);
    assert_eq!(s.parse_from_header(&[0x05, 0x10]), Ok(2));
    assert_eq!(s.regenerated_size, 256);
    assert_eq!(s.ls_type, LiteralsSectionType::RLE);
    // 100 literals in 50 bytes, one stream
    let v = 2 + 16 * 100 + 16384 * 50;
    assert_eq!(
        s.parse_from_header(&[v as u8, (v >> 8) as u8, (v >> 16) as u8]),
        Ok(3)
    );
    assert_eq!((s.regenerated_size, s.compressed_size), (100, Some(50)));
    assert_eq!(s.num_streams, Some(1));
    assert_eq!(s.ls_type, LiteralsSectionType::Compressed);
}

/// A header read over an earlier one keeps what it does not say.
#[test]
fn headers_read_over() {
    let mut s = LiteralsSection::new();
    let v = 2 + 4 * 2 + 16 * 5000 + 262144 * 50;
    s.parse_from_header(&[v as u8, (v >> 8) as u8, (v >> 16) as u8, (v >> 24) as u8])
        .unwrap();
    assert_eq!((s.compressed_size, s.num_streams), (Some(50), Some(4)));
    assert_eq!(s.parse_from_header(&[3 << 3]), Ok(1));
    assert_eq!((s.regenerated_size, s.compressed_size), (3, None));
    assert_eq!(s.num_streams, Some(4));
    assert_eq!(s.ls_type, LiteralsSectionType::Raw);
}

/// Frequent symbols get shorter codes; the code fills the code space.
#[test]
fn lengths() {
    assert_eq!(huffman_lengths(&[0, 7]), None);
    assert_eq!(huffman_lengths(&[1, 1]), Some(vec![1, 1]));
    assert_eq!(huffman_lengths(&[4, 2, 1, 1]), Some(vec![1, 2, 3, 3]));
    assert_eq!(huffman_lengths(&[1, 0, 1, 2, 4]), Some(vec![3, 0, 3, 2, 1]));
    let fibonacci = [1, 1, 2, 3, 5, 8, 13, 21, 34, 55, 89, 144, 233, 377, 610];
    let limited = huffman_lengths(&fibonacci).unwrap();
    assert_eq!(*limited.iter().max().unwrap(), 11);
    let space: u32 = limited.iter().map(|&l| 1 << (11 - l)).sum();
    assert_eq!(space, 2048);
}

/// Where a tree is too deep, the rarest symbols pay for it.
#[test]
fn limited_lengths() {
    let counts = [2560, 1280, 640, 320, 160, 80, 40, 20, 6, 5, 4, 2, 1, 1];
    assert_eq!(
        huffman_lengths(&counts),
        Some(vec![1, 2, 3, 4, 5, 6, 7, 8, 10, 10, 11, 11, 11, 11])
    );
    let mut deep = vec![1u32, 1];
    while deep.len() < 47 {
        deep.push(deep[deep.len() - 1] + deep[deep.len() - 2]);
    }
    let lens = huffman_lengths(&deep).unwrap();
    assert_eq!(&lens[40..], &[8, 7, 6, 4, 3, 2, 1]);
    let space: u32 = lens.iter().map(|&l| 1 << (11 - l)).sum();
    assert_eq!(space, 2048);
    for a in 0..lens.len() {
        for b in 0..a {
            assert!(lens[a] <= lens[b]);
        }
    }
    let (codes, max_bits) = build_huffman_codes(&deep).unwrap();
    assert_eq!(max_bits, 11);
    assert!(codes.iter().zip(&lens).all(|(c, l)| c.1 == *l));
}

/// The weights of a tree are read back.
#[test]
fn tree_descriptions() {
    // Symbols 0 and 2 to 5 have codes; what comes after symbol 5 has none.
    let lens = [1u8, 0, 2, 3, 4, 4, 0, 0];
    let codes: Vec<(u32, u8)> = lens.iter().map(|&l| (0, l)).collect();
    let desc = encode_huffman_tree(&codes, 4, 7);
    assert_eq!(desc, vec![132, 0x40, 0x32, 0x10]);
    let mut table = HuffmanTable::new();
    assert_eq!(table.read_weights(&desc), Ok(4));
    assert_eq!(table.weights, vec![4, 0, 3, 2, 1]);
    assert_eq!(encode_huffman_tree(&codes, 4, 0), vec![]);
    assert_eq!(encode_huffman_tree(&[(0, 1), (0, 20)], 20, 1), vec![]);
    let mut many: Vec<(u32, u8)> = vec![(0, 8); 140];
    many[3].1 = 3;
    many[100].1 = 0;
    let desc = encode_huffman_tree(&many, 8, 139);
    assert!(desc.len() > 1 && desc[0] < 128);
    assert_eq!(table.read_weights(&desc), Ok(desc.len() as u32));
    assert_eq!(table.weights.len(), 139);
    assert_eq!((table.weights[3], table.weights[4], table.weights[100]), (6, 1, 0));
}

/// The longest codes come first.
#[test]
fn codes() {
    assert_eq!(
        assign_codes(&[1, 2, 3, 3], 3),
        vec![(1, 1), (1, 2), (0, 3), (1, 3)]
    );
    assert_eq!(
        build_huffman_codes(&[4, 2, 1, 1]),
        Some((vec![(1, 1), (1, 2), (0, 3), (1, 3)], 3))
    );
    assert_eq!(build_huffman_codes(&[0, 0, 9]), None);
}

/// Weights written in compressed form are read back.
#[test]
fn weights() {
    let mut w = vec![0u8; 150];
    for (i, x) in w.iter_mut().enumerate() {
        *x = [1, 2, 1, 3, 0, 1, 4, 1][i * i % 8];
    }
    let bytes = encode_weights_fse(&w).unwrap();
    assert_eq!(
        decode_huf_weights_from_fse(&bytes, bytes.len() as u8),
        Ok(w)
    );
    assert_eq!(encode_weights_fse(&[3; 140]), None);
}

/// Short literals stand as they are; longer ones are coded where that helps.
#[test]
fn sections() {
    let mut out = vec![9];
    let none = LiteralCodes::none();
    assert!(encode_literals(&mut out, b"abc", &none).is_none());
    assert_eq!(out, vec![9, 3 << 3, b'a', b'b', b'c']);
    let text = b"abracadabra ".repeat(200);
    let mut coded = Vec::new();
    let codes = encode_literals(&mut coded, &text, &none).unwrap();
    assert!(coded.len() < text.len() / 2);
    assert_eq!(encode_literals_huffman(&text), Some(coded.clone()));
    assert_eq!(encode_literals_huffman(&[5; 100]), None);
    let mut header = LiteralsSection::new();
    let n = header.parse_from_header(&coded).unwrap() as usize;
    let mut target = Vec::new();
    let mut table = HuffmanTable::new();
    let used = decode_literals(&header, &mut table, &coded[n..], &mut target);
    assert_eq!(used, Ok((coded.len() - n) as u32));
    assert_eq!(target, text);
    // The same codes are used again, without a tree.
    let more = b"arcade bard ".repeat(100);
    assert_eq!(encode_literals_treeless(&more, &codes), None);
    let more = b"a bad cab ".repeat(100);
    let mut reused = Vec::new();
    assert!(encode_literals(&mut reused, &more, &codes).is_none());
    assert_eq!(encode_literals_treeless(&more, &codes), Some(reused.clone()));
    assert!(reused.len() < encode_literals_huffman(&more).unwrap().len());
    let n = header.parse_from_header(&reused).unwrap() as usize;
    assert_eq!(header.ls_type, LiteralsSectionType::Treeless);
    let mut target = Vec::new();
    let used = decode_literals(&header, &mut table, &reused[n..], &mut target);
    assert_eq!(used, Ok((reused.len() - n) as u32));
    assert_eq!(target, more);
}

#[test]
fn whole_stream() {
    let mut table = HuffmanTable::new();
    assert_eq!(table.build_decoder(&TWO_SYMBOLS), Ok(2));
    let mut target = vec![7];
    assert_eq!(decode_stream(&table, &[0b1101], &mut target), Ok(0));
    assert_eq!(target, vec![7, 1, 0, 1]);
}

#[test]
fn simple_codes() {
    let mut counts = [0u32; 256];
    assert!(build_huffman_table(&counts).is_none());
    counts[65] = 9;
    assert!(build_huffman_table(&counts).is_none());
    counts[66] = 1;
    counts[68] = 2;
    let (codes, max_bits, tree) = build_huffman_table(&counts).unwrap();
    assert_eq!(max_bits, 3);
    assert_eq!(codes[65], HufCode { bits: 0, nbits: 3 });
    assert_eq!(codes[66], HufCode { bits: 1, nbits: 3 });
    assert_eq!(codes[67], HufCode::default());
    assert_eq!(codes[68], HufCode { bits: 2, nbits: 3 });
    assert_eq!(tree.len(), 36);
    assert_eq!(tree[0], 35);
    assert_eq!(&tree[33..], &[0x01, 0x10, 0x10]);
    // A saturated count keeps its estimated length where code space is free.
    let mut full = [0u32; 256];
    full[0] = u32::MAX;
    full[1] = 1;
    let (codes, max_bits, _) = build_huffman_table(&full).unwrap();
    assert_eq!(max_bits, 3);
    assert_eq!((codes[0].nbits, codes[1].nbits), (1, 3));
}

/// No code begins another one, also where the estimated lengths would not fit.
#[test]
fn simple_codes_are_prefix_free() {
    let mut counts = [1u32; 256];
    counts[0] = 4200;
    counts[1] = 2100;
    counts[2] = 1050;
    counts[3] = 530;
    for skip in [1, 3] {
        let mut some = [0u32; 256];
        for s in (0..256).step_by(skip) {
            some[s] = counts[s];
        }
        let (codes, max_bits, _) = build_huffman_table(&some).unwrap();
        for s in 0..256 {
            for u in 0..256 {
                let (c, d) = (codes[s], codes[u]);
                if s != u && c.nbits > 0 && d.nbits >= c.nbits {
                    assert!(c.bits < 1 << c.nbits && c.nbits <= max_bits);
                    assert_ne!(c.bits, d.bits >> (d.nbits - c.nbits));
                }
            }
        }
    }
}
