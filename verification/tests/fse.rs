//! FSE tables.
use zstd_rs::bitreader::BitReaderReversed;
use zstd_rs::bitstream::BitWriter;
use zstd_rs::constants::{
    ll_code, ml_code, off_code, LL_BASE, LL_DEFAULT_NORM, LL_DEFAULT_NORM_LOG, MAX_LL, MAX_ML,
    ML_BASE, ML_DEFAULT_NORM, ML_DEFAULT_NORM_LOG, OF_DEFAULT_NORM, OF_DEFAULT_NORM_LOG,
};
use zstd_rs::error::DecodeError;
use zstd_rs::fse::{encode_sequences, FseCTable};
use zstd_rs::fse_decode::{parse_fse_header, FSEDecoder, FSETable};
use zstd_rs::fse_header::encode_fse_header;
use zstd_rs::normalize::normalize_counts;
use zstd_rs::seq_section::{encode_sequences_section, EncodedSequence};
use zstd_rs::sequences::{
    decode_sequences, CompressionModes, FSEScratch, Sequence, SequencesHeader,
};

#[test]
fn build_ll_default_table() {
    let table = FseCTable::build(&LL_DEFAULT_NORM, MAX_LL, LL_DEFAULT_NORM_LOG);
    assert_eq!(table.table_log, 6);
    assert_eq!(table.state_table.len(), 64);
}

#[test]
fn build_ml_default_table() {
    let table = FseCTable::build(&ML_DEFAULT_NORM, MAX_ML, ML_DEFAULT_NORM_LOG);
    assert_eq!(table.table_log, 6);
    assert_eq!(table.state_table.len(), 64);
}

#[test]
fn init_state_in_range() {
    let table = FseCTable::build(&LL_DEFAULT_NORM, MAX_LL, LL_DEFAULT_NORM_LOG);
    // Encoder states are stored in the [table_size, 2 * table_size) range.
    let state = table.init_state(0);
    let table_size = 1u32 << table.table_log;
    assert!((table_size..(table_size * 2)).contains(&state));
}

#[test]
fn single_symbol_table() {
    let table = FseCTable::build_rle(7);
    assert_eq!(table.table_log, 0);
    assert_eq!(table.init_state(7), 0);
    assert_eq!(table.encode_symbol(0, 7), (0, 0, 0));
}

/// Two symbols that share 32 cells take one bit each.
#[test]
fn even_table() {
    let table = FseCTable::build(&[16, 16], 1, 5);
    for symbol in 0..2 {
        let state = table.init_state(symbol);
        assert!((32..64).contains(&state));
        let (bits, n, next) = table.encode_symbol(state, 1 - symbol);
        assert_eq!(n, 1);
        assert_eq!(bits, state % 2);
        assert!((32..64).contains(&next));
    }
}

#[test]
fn header_bytes() {
    assert_eq!(encode_fse_header(&[16, 16], 1, 5), vec![0x10, 0x3F]);
    assert_eq!(
        parse_fse_header(&[0x10, 0x3F, 99], 6),
        Ok((5, vec![16, 16], 2))
    );
}

#[test]
fn headers_are_read_back() {
    let norms: [(&[i16], u32); 5] = [
        (&LL_DEFAULT_NORM, 6),
        (&ML_DEFAULT_NORM, 6),
        (&OF_DEFAULT_NORM, 5),
        (&[30, 0, 0, 0, 0, 0, 1, -1], 5),
        (&[-1, 0, 500, 0, 0, 11], 9),
    ];
    for (norm, log) in norms {
        let bytes = encode_fse_header(norm, norm.len() - 1, log);
        let probs: Vec<i32> = norm.iter().map(|&p| p as i32).collect();
        assert_eq!(
            parse_fse_header(&bytes, 9),
            Ok((log as u8, probs, bytes.len()))
        );
    }
}

#[test]
fn header_errors() {
    assert_eq!(
        parse_fse_header(&[0x03], 7),
        Err(DecodeError::AccuracyLogTooLarge { log: 8, max: 7 })
    );
    assert_eq!(
        parse_fse_header(&[], 7),
        Err(DecodeError::NotEnoughBits { wanted: 4, left: 0 })
    );
    // A zero, a run of 270 more, and one symbol for all cells
    let mut w = BitWriter::new();
    w.write_bits(0, 4);
    w.write_bits(1, 5);
    for _ in 0..90 {
        w.write_bits(3, 2);
    }
    w.write_bits(0, 2);
    w.write_bits(63, 6);
    assert_eq!(
        parse_fse_header(&w.finish(), 7),
        Err(DecodeError::TooManySymbols { symbols: 272 })
    );
}

#[test]
fn table_errors() {
    let mut table = FSETable::new(1);
    assert_eq!(
        table.build_from_probabilities(0, &[]),
        Err(DecodeError::AccuracyLogZero)
    );
    let mut decoder = FSEDecoder::new(&table);
    let mut bits = BitReaderReversed::new(&[0xFF]);
    assert_eq!(
        decoder.init_state(&mut bits),
        Err(DecodeError::FseTableUninitialized)
    );
    assert_eq!(
        table.build_from_probabilities(5, &[16, 8, 8]),
        Err(DecodeError::TooManySymbols { symbols: 3 })
    );
}

/// Counts are scaled to the table; rare symbols get a cell of their own.
#[test]
fn normalized_counts() {
    assert_eq!(normalize_counts(&[1, 1, 0, 2], 3, 5), vec![8, 8, 0, 16]);
    assert_eq!(normalize_counts(&[1000, 1], 1, 5), vec![31, -1]);
    assert_eq!(normalize_counts(&[0, 0], 1, 5), vec![0, 0]);
    let many = [1u32; 40];
    let norm = normalize_counts(&many, 39, 6);
    assert_eq!(norm[0], 64 - 39);
    assert!(norm[1..].iter().all(|&p| p == 1));
}

/// Sequences written with the predefined tables are decoded again.
#[test]
fn sequences_are_read_back() {
    let ll_table = FseCTable::build(&LL_DEFAULT_NORM, MAX_LL, LL_DEFAULT_NORM_LOG);
    let ml_table = FseCTable::build(&ML_DEFAULT_NORM, MAX_ML, ML_DEFAULT_NORM_LOG);
    let of_table = FseCTable::build(&OF_DEFAULT_NORM, 28, OF_DEFAULT_NORM_LOG);
    let sequences: Vec<Sequence> = (0..50u32)
        .map(|i| Sequence { ll: i * 37 % 300, ml: 3 + i * 91 % 2000, of: 1 + i * 7919 % 70000 })
        .collect();
    let ll_codes: Vec<u8> = sequences.iter().map(|s| ll_code(s.ll)).collect();
    let ml_codes: Vec<u8> = sequences.iter().map(|s| ml_code(s.ml - 3)).collect();
    let of_codes: Vec<u8> = sequences.iter().map(|s| off_code(s.of)).collect();
    let ll_values: Vec<u32> = sequences
        .iter()
        .map(|s| s.ll - LL_BASE[ll_code(s.ll) as usize])
        .collect();
    let ml_values: Vec<u32> = sequences
        .iter()
        .map(|s| s.ml - ML_BASE[ml_code(s.ml - 3) as usize])
        .collect();
    let of_values: Vec<u32> = sequences
        .iter()
        .map(|s| s.of - (1 << off_code(s.of)))
        .collect();
    let bytes = encode_sequences(
        &ll_table, &of_table, &ml_table, &ll_codes, &of_codes, &ml_codes, &ll_values, &ml_values,
        &of_values,
    );
    let section = SequencesHeader { num_sequences: 50, modes: Some(CompressionModes(0)) };
    let mut decoded = Vec::new();
    assert_eq!(
        decode_sequences(&section, &bytes, &mut FSEScratch::new(), &mut decoded),
        Ok(())
    );
    assert_eq!(decoded.len(), sequences.len());
    for (a, b) in decoded.iter().zip(&sequences) {
        assert_eq!((a.ll, a.ml, a.of), (b.ll, b.ml, b.of));
    }
    let none: [u8; 0] = [];
    let no_values: [u32; 0] = [];
    assert_eq!(
        encode_sequences(
            &ll_table, &of_table, &ml_table, &none, &none, &none, &no_values, &no_values,
            &no_values
        ),
        Vec::<u8>::new()
    );
}

/// Counts of more symbols than bytes have, and tables with fewer cells than symbols.
#[test]
fn normalized_counts_of_many() {
    let mut counts = vec![0u32; 1000];
    counts[3] = 3;
    counts[999] = 1;
    let norm = normalize_counts(&counts, 999, 5);
    assert_eq!((norm.len(), norm[3], norm[999]), (1000, 24, 8));
    assert_eq!(normalize_counts(&[1, 1, 1], 2, 1), vec![1, -1, -1]);
}

/// A sequences section is read back and is not long.
#[test]
fn sections_are_read_back() {
    let seqs: Vec<EncodedSequence> = (0..40000u32)
        .map(|i| EncodedSequence {
            ll: i * i % 131072,
            ml: 3 + i * 7919 % 131072,
            of_value: 1 + i.wrapping_mul(2654435761) % (1 << 25),
        })
        .collect();
    for n in [1, 127, 128, 5000, 0x7F00, 40000] {
        let mut bytes = vec![];
        encode_sequences_section(&mut bytes, &seqs[..n]);
        assert!(bytes.len() <= 12 * n + 300);
        let mut header = SequencesHeader::new();
        let at = header.parse_from_header(&bytes).unwrap() as usize;
        assert_eq!(header.num_sequences as usize, n);
        let mut target = vec![];
        let mut scratch = FSEScratch::new();
        assert_eq!(decode_sequences(&header, &bytes[at..], &mut scratch, &mut target), Ok(()));
        assert!(target.len() == n
            && target.iter().zip(&seqs).all(|(a, b)| (a.ll, a.ml, a.of)
                == (b.ll, b.ml, b.of_value)));
    }
}
