//! Codes of lengths and offsets, repeated offsets, and matches.
use zstd_rs::block::compress_block;
use zstd_rs::constants::{ll_code, ml_code, off_code, LL_BASE, LL_BITS, ML_BASE, ML_BITS};
use zstd_rs::decode::{decompress_block, DecoderScratch};
use zstd_rs::execute::do_offset_history;
use zstd_rs::matcher::{common_prefix_len, find_matches, MatchParams, RawSequence};
use zstd_rs::offsets::resolve_repeat_offsets;
use zstd_rs::seq_section::EncodedSequence;

#[test]
fn literal_length_codes() {
    assert_eq!(ll_code(0), 0);
    assert_eq!(ll_code(15), 15);
    assert_eq!(ll_code(16), 16);
    assert_eq!(ll_code(17), 16);
    assert_eq!(ll_code(23), 19);
    assert_eq!(ll_code(24), 20);
    assert_eq!(ll_code(47), 23);
    assert_eq!(ll_code(48), 24);
    assert_eq!(ll_code(63), 24);
    assert_eq!(ll_code(64), 25);
    assert_eq!(ll_code(65536), 35);
    for v in 0..131072u32 {
        let c = ll_code(v) as usize;
        assert!(LL_BASE[c] <= v && v - LL_BASE[c] < 1 << LL_BITS[c]);
    }
}

#[test]
fn match_length_codes() {
    assert_eq!(ml_code(0), 0);
    assert_eq!(ml_code(31), 31);
    assert_eq!(ml_code(33), 32);
    assert_eq!(ml_code(47), 37);
    assert_eq!(ml_code(63), 39);
    assert_eq!(ml_code(95), 41);
    assert_eq!(ml_code(127), 42);
    assert_eq!(ml_code(128), 43);
    assert_eq!(ml_code(65536), 52);
    for v in 0..131072u32 {
        let c = ml_code(v) as usize;
        assert!(ML_BASE[c] <= v + 3 && v + 3 - ML_BASE[c] < 1 << ML_BITS[c]);
    }
}

#[test]
fn offset_codes() {
    assert_eq!(off_code(0), 0);
    assert_eq!(off_code(1), 0);
    assert_eq!(off_code(2), 1);
    assert_eq!(off_code(3), 1);
    assert_eq!(off_code(4), 2);
    assert_eq!(off_code(u32::MAX), 31);
}

#[test]
fn repeated_offsets() {
    let seqs = [
        RawSequence { ll: 3, off: 1, ml: 4 },
        RawSequence { ll: 2, off: 8, ml: 4 },
        RawSequence { ll: 0, off: 1, ml: 4 },
        RawSequence { ll: 0, off: 100, ml: 4 },
        RawSequence { ll: 0, off: 99, ml: 4 },
    ];
    let mut rep = [1, 4, 8];
    let encoded = resolve_repeat_offsets(&seqs, &mut rep);
    let values: Vec<u32> = encoded.iter().map(|e| e.of_value).collect();
    assert_eq!(values, vec![1, 3, 1, 103, 3]);
    assert_eq!(rep, [99, 100, 1]);
    assert_eq!(encoded[0], EncodedSequence { ll: 3, of_value: 1, ml: 4 });
}

/// A decoder finds every offset again.
#[test]
fn repeated_offsets_are_resolved() {
    let offsets = [1u32, 4, 8, 8, 4, 5, 5, 4, 3, 3, 1, 2, 8, 7, 6, 6, 7, 8];
    for ll in 0..3usize {
        let seqs: Vec<RawSequence> = offsets
            .iter()
            .enumerate()
            .map(|(i, &off)| RawSequence { ll: (i + ll) % 3, off, ml: 3 })
            .collect();
        let mut rep = [1, 4, 8];
        let mut hist = [1, 4, 8];
        for (e, s) in resolve_repeat_offsets(&seqs, &mut rep).iter().zip(&seqs) {
            assert_eq!(do_offset_history(e.of_value, e.ll, &mut hist), s.off);
        }
        assert_eq!(hist, rep);
    }
}

#[test]
fn levels() {
    assert_eq!(
        MatchParams::from_level(1),
        MatchParams { hash_log: 17, lazy_depth: 0, search_depth: 4 }
    );
    assert_eq!(
        MatchParams::from_level(5),
        MatchParams { hash_log: 18, lazy_depth: 1, search_depth: 16 }
    );
    assert_eq!(
        MatchParams::from_level(6),
        MatchParams { hash_log: 19, lazy_depth: 1, search_depth: 64 }
    );
    assert_eq!(
        MatchParams::from_level(11),
        MatchParams { hash_log: 20, lazy_depth: 1, search_depth: 256 }
    );
}

#[test]
fn common_prefixes() {
    assert_eq!(common_prefix_len(b"", b"abc"), 0);
    assert_eq!(common_prefix_len(b"abd", b"abc"), 2);
    assert_eq!(common_prefix_len(b"abcdefghij", b"abcdefghijk"), 10);
    assert_eq!(common_prefix_len(b"abcdefghijXb", b"abcdefghijkb"), 10);
}

#[test]
fn matches() {
    let params = MatchParams::from_level(1);
    assert_eq!(find_matches(b"abc", &params), vec![]);
    assert_eq!(
        find_matches(b"abcdabcdabcd", &params),
        vec![RawSequence { ll: 4, off: 4, ml: 8 }]
    );
    assert_eq!(
        find_matches(b"xxxxxxxxxxxx", &params),
        vec![RawSequence { ll: 1, off: 1, ml: 11 }]
    );
    assert_eq!(find_matches(b"abcdefghijkl", &params), vec![]);
}

/// Literals and matches together give the data back.
#[test]
fn matches_describe_the_data() {
    let data = b"she sells sea shells by the sea shore, she sells sea shells".repeat(3);
    for level in 1..12 {
        let seqs = find_matches(&data, &MatchParams::from_level(level));
        let mut made: Vec<u8> = Vec::new();
        for s in &seqs {
            let at = made.len();
            made.extend_from_slice(&data[at..at + s.ll]);
            for _ in 0..s.ml {
                made.push(made[made.len() - s.off as usize]);
            }
        }
        let at = made.len();
        made.extend_from_slice(&data[at..]);
        assert_eq!(made, data);
    }
}

/// A block of its own is decoded at the start of a frame.
#[test]
fn whole_blocks() {
    let params = MatchParams::from_level(3);
    assert_eq!(compress_block(b"no match here", &params), None);
    let data = b"one block, one block, one block, two blocks".to_vec();
    let content = compress_block(&data, &params).unwrap();
    assert!(content.len() < data.len());
    let mut scratch = DecoderScratch::new(1024);
    assert_eq!(decompress_block(&mut scratch, &content), Ok(()));
    assert_eq!(scratch.buffer.drain(), data);
}
