//! Estimates of how many bits codes take.
use zstd_rs::constants::{LL_DEFAULT_NORM, ML_DEFAULT_NORM};
use zstd_rs::cost::{entropy_cost_bits, log2_fixed_u32, table_cost_bits, ONE_BIT};
use zstd_rs::seq_section::{choose_seq_mode, count_codes, count_used, SeqTableMode};

#[test]
fn logarithms() {
    for e in 0..32 {
        assert_eq!(log2_fixed_u32(1 << e), e as u64 * ONE_BIT);
    }
    for v in [3u32, 5, 7, 100, 1000, 65537, 123456789, u32::MAX] {
        let exact = (v as f64).log2() * ONE_BIT as f64;
        let fixed = log2_fixed_u32(v) as f64;
        assert!((exact - fixed).abs() < 4.0, "{}", v);
    }
}

fn counts_for(seed: u64) -> Vec<u32> {
    let mut x = seed;
    (0..36)
        .map(|_| {
            x = x
                .wrapping_mul(6364136223846793005)
                .wrapping_add(1442695040888963407);
            if x >> 62 == 0 {
                0
            } else {
                (x >> 54) as u32 % 300
            }
        })
        .collect()
}

/// The fixed-point sums agree with floating point ones.
#[test]
fn costs() {
    for seed in 0..300 {
        let counts = counts_for(seed);
        let total: u32 = counts.iter().sum();
        let mut entropy = 0.0f64;
        let mut table = 0.0f64;
        for (s, &c) in counts.iter().enumerate() {
            if c > 0 {
                entropy += c as f64 * -(c as f64 / total as f64).log2();
                let cells = LL_DEFAULT_NORM[s].max(1) as f64;
                table += c as f64 * (64.0 / cells).log2();
            }
        }
        assert_eq!(
            entropy_cost_bits(&counts, total, counts.len()),
            entropy.ceil() as u64
        );
        assert_eq!(
            table_cost_bits(&counts, &LL_DEFAULT_NORM, 6, counts.len()),
            table.ceil() as u64
        );
    }
}

#[test]
fn counting() {
    let counts = count_codes(&[3, 1, 3, 3]);
    assert_eq!(counts, vec![0, 1, 0, 3]);
    assert_eq!(count_used(&counts), 2);
}

/// Large counts, and tables that are larger than their size says.
#[test]
fn large_costs() {
    assert_eq!(table_cost_bits(&[u32::MAX], &[1], 63, 1), 63 * u32::MAX as u64);
    assert_eq!(table_cost_bits(&[3, 5], &[4, 1], 1, 2), 2);
    assert_eq!(table_cost_bits(&[3], &[4], 1, 1), 0);
    assert_eq!(entropy_cost_bits(&[1 << 31, 1 << 30], 1 << 31, 2), 1 << 30);
}

#[test]
fn modes() {
    let choose = |codes: &[u8]| choose_seq_mode(codes, 52, 6, &ML_DEFAULT_NORM, 9);
    assert!(matches!(choose(&[]), SeqTableMode::Predefined));
    assert!(matches!(choose(&[7, 7, 7]), SeqTableMode::Rle(7)));
    let small = |codes: &[u8]| choose_seq_mode(codes, 52, 6, &ML_DEFAULT_NORM, 5);
    assert!(matches!(small(&[40]), SeqTableMode::Rle(40)));
    let tiny = |codes: &[u8]| choose_seq_mode(codes, 90, 6, &ML_DEFAULT_NORM, 2);
    assert!(matches!(tiny(&[200, 200]), SeqTableMode::Rle(200)));
    assert!(matches!(tiny(&[]), SeqTableMode::Predefined));
    // Codes past the predefined table need a table of their own.
    let wide = choose_seq_mode(&[60, 61, 60], 90, 6, &ML_DEFAULT_NORM, 30);
    assert!(matches!(wide, SeqTableMode::Fse { max_symbol: 61, table_log: 5, .. }));
    assert!(matches!(choose(&[1, 2, 3, 1]), SeqTableMode::Predefined));
    let mut skewed = vec![40u8; 2000];
    skewed.push(41);
    match choose(&skewed) {
        SeqTableMode::Fse { norm, max_symbol, table_log, .. } => {
            assert_eq!((max_symbol, table_log), (41, 5));
            assert_eq!((norm[40], norm[41]), (31, -1));
        }
        _ => panic!("a table of its own is shorter"),
    }
    assert_eq!(choose(&skewed).tag(), 2);
}
