//! Format constants, predefined distributions and code tables.
use crate::bits;
use crate::bits::high_bit_u64;
use vstd::arithmetic::power2::*;
use vstd::prelude::*;

verus! {

pub const ZSTD_MAGIC: u32 = 0xFD2F_B528;

pub const ZSTD_BLOCKSIZELOG_MAX: u32 = 17;

/// 128 KiB: no block regenerates more bytes than this.
pub const ZSTD_BLOCKSIZE_MAX: usize = 131072;

pub const ZSTD_WINDOWLOG_MAX: u32 = 31;

pub const ZSTD_MINMATCH: usize = 3;

// Block types
pub const BLOCK_TYPE_RAW: u8 = 0;

pub const BLOCK_TYPE_RLE: u8 = 1;

pub const BLOCK_TYPE_COMPRESSED: u8 = 2;

// Literals section types
pub const LIT_TYPE_RAW: u8 = 0;

pub const LIT_TYPE_RLE: u8 = 1;

pub const LIT_TYPE_COMPRESSED: u8 = 2;

pub const LIT_TYPE_TREELESS: u8 = 3;

// Sequence table modes
pub const SEQ_MODE_PREDEFINED: u8 = 0;

pub const SEQ_MODE_RLE: u8 = 1;

pub const SEQ_MODE_FSE: u8 = 2;

pub const SEQ_MODE_REPEAT: u8 = 3;

// Maximum symbol values
pub const MAX_LL: usize = 35;

pub const MAX_ML: usize = 52;

pub const MAX_OFF: usize = 31;

// Maximum table logs
pub const LL_FSE_LOG: u32 = 9;

pub const ML_FSE_LOG: u32 = 9;

pub const OFF_FSE_LOG: u32 = 8;

// Table logs of the predefined distributions
pub const LL_DEFAULT_NORM_LOG: u32 = 6;

pub const ML_DEFAULT_NORM_LOG: u32 = 6;

pub const OF_DEFAULT_NORM_LOG: u32 = 5;

/// Extra bits for each literal length code.
pub const LL_BITS: [u8; 36] = [
    0, 0, 0, 0, 0, 0, 0, 0, 0, 0, 0, 0, 0, 0, 0, 0, 1, 1, 1, 1, 2, 2, 3, 3, 4, 6, 7, 8, 9, 10,
    11, 12, 13, 14, 15, 16,
];

/// Base value for each literal length code.
pub const LL_BASE: [u32; 36] = [
    0, 1, 2, 3, 4, 5, 6, 7, 8, 9, 10, 11, 12, 13, 14, 15, 16, 18, 20, 22, 24, 28, 32, 40, 48,
    64, 128, 256, 512, 1024, 2048, 4096, 8192, 16384, 32768, 65536,
];

/// Extra bits for each match length code.
pub const ML_BITS: [u8; 53] = [
    0, 0, 0, 0, 0, 0, 0, 0, 0, 0, 0, 0, 0, 0, 0, 0, 0, 0, 0, 0, 0, 0, 0, 0, 0, 0, 0, 0, 0, 0, 0,
    0, 1, 1, 1, 1, 2, 2, 3, 3, 4, 4, 5, 7, 8, 9, 10, 11, 12, 13, 14, 15, 16,
];

/// Base value for each match length code.
pub const ML_BASE: [u32; 53] = [
    3, 4, 5, 6, 7, 8, 9, 10, 11, 12, 13, 14, 15, 16, 17, 18, 19, 20, 21, 22, 23, 24, 25, 26, 27,
    28, 29, 30, 31, 32, 33, 34, 35, 37, 39, 41, 43, 47, 51, 59, 67, 83, 99, 131, 259, 515, 1027,
    2051, 4099, 8195, 16387, 32771, 65539,
];

/// Extra bits for each offset code.
pub const OF_BITS: [u8; 32] = [
    0, 1, 2, 3, 4, 5, 6, 7, 8, 9, 10, 11, 12, 13, 14, 15, 16, 17, 18, 19, 20, 21, 22, 23, 24,
    25, 26, 27, 28, 29, 30, 31,
];

/// Predefined distribution of the literal length codes.
pub const LL_DEFAULT_NORM: [i16; 36] = [
    4, 3, 2, 2, 2, 2, 2, 2, 2, 2, 2, 2, 2, 1, 1, 1, 2, 2, 2, 2, 2, 2, 2, 2, 2, 3, 2, 1, 1, 1, 1, 1,
    -1, -1, -1, -1,
];

/// Predefined distribution of the match length codes.
pub const ML_DEFAULT_NORM: [i16; 53] = [
    1, 4, 3, 2, 2, 2, 2, 2, 2, 1, 1, 1, 1, 1, 1, 1, 1, 1, 1, 1, 1, 1, 1, 1, 1, 1, 1, 1, 1, 1, 1, 1,
    1, 1, 1, 1, 1, 1, 1, 1, 1, 1, 1, 1, 1, 1, -1, -1, -1, -1, -1, -1, -1,
];

/// Predefined distribution of the offset codes.
pub const OF_DEFAULT_NORM: [i16; 29] = [
    1, 1, 1, 1, 1, 1, 2, 2, 2, 1, 1, 1, 1, 1, 1, 1, 1, 1, 1, 1, 1, 1, 1, 1, -1, -1, -1, -1, -1,
];

/// The values that literal length code `c` stands for: a base, and as many more
/// as its extra bits can count.
pub open spec fn ll_covers(c: int, v: int) -> bool {
    0 <= c <= 35 && LL_BASE@[c] <= v < LL_BASE@[c] + pow2(LL_BITS@[c] as nat)
}

/// The match lengths that match length code `c` stands for.
pub open spec fn ml_covers(c: int, v: int) -> bool {
    0 <= c <= 52 && ML_BASE@[c] <= v < ML_BASE@[c] + pow2(ML_BITS@[c] as nat)
}

pub proof fn lemma_ll_tables()
    ensures
        LL_BASE@[0] == 0 && LL_BITS@[0] == 0,
        LL_BASE@[1] == 1 && LL_BITS@[1] == 0,
        LL_BASE@[2] == 2 && LL_BITS@[2] == 0,
        LL_BASE@[3] == 3 && LL_BITS@[3] == 0,
        LL_BASE@[4] == 4 && LL_BITS@[4] == 0,
        LL_BASE@[5] == 5 && LL_BITS@[5] == 0,
        LL_BASE@[6] == 6 && LL_BITS@[6] == 0,
        LL_BASE@[7] == 7 && LL_BITS@[7] == 0,
        LL_BASE@[8] == 8 && LL_BITS@[8] == 0,
        LL_BASE@[9] == 9 && LL_BITS@[9] == 0,
        LL_BASE@[10] == 10 && LL_BITS@[10] == 0,
        LL_BASE@[11] == 11 && LL_BITS@[11] == 0,
        LL_BASE@[12] == 12 && LL_BITS@[12] == 0,
        LL_BASE@[13] == 13 && LL_BITS@[13] == 0,
        LL_BASE@[14] == 14 && LL_BITS@[14] == 0,
        LL_BASE@[15] == 15 && LL_BITS@[15] == 0,
        LL_BASE@[16] == 16 && LL_BITS@[16] == 1,
        LL_BASE@[17] == 18 && LL_BITS@[17] == 1,
        LL_BASE@[18] == 20 && LL_BITS@[18] == 1,
        LL_BASE@[19] == 22 && LL_BITS@[19] == 1,
        LL_BASE@[20] == 24 && LL_BITS@[20] == 2,
        LL_BASE@[21] == 28 && LL_BITS@[21] == 2,
        LL_BASE@[22] == 32 && LL_BITS@[22] == 3,
        LL_BASE@[23] == 40 && LL_BITS@[23] == 3,
        LL_BASE@[24] == 48 && LL_BITS@[24] == 4,
        LL_BASE@[25] == 64 && LL_BITS@[25] == 6,
        LL_BASE@[26] == 128 && LL_BITS@[26] == 7,
        LL_BASE@[27] == 256 && LL_BITS@[27] == 8,
        LL_BASE@[28] == 512 && LL_BITS@[28] == 9,
        LL_BASE@[29] == 1024 && LL_BITS@[29] == 10,
        LL_BASE@[30] == 2048 && LL_BITS@[30] == 11,
        LL_BASE@[31] == 4096 && LL_BITS@[31] == 12,
        LL_BASE@[32] == 8192 && LL_BITS@[32] == 13,
        LL_BASE@[33] == 16384 && LL_BITS@[33] == 14,
        LL_BASE@[34] == 32768 && LL_BITS@[34] == 15,
        LL_BASE@[35] == 65536 && LL_BITS@[35] == 16,
{
}

pub proof fn lemma_ml_tables()
    ensures
        ML_BASE@[0] == 3 && ML_BITS@[0] == 0,
        ML_BASE@[1] == 4 && ML_BITS@[1] == 0,
        ML_BASE@[2] == 5 && ML_BITS@[2] == 0,
        ML_BASE@[3] == 6 && ML_BITS@[3] == 0,
        ML_BASE@[4] == 7 && ML_BITS@[4] == 0,
        ML_BASE@[5] == 8 && ML_BITS@[5] == 0,
        ML_BASE@[6] == 9 && ML_BITS@[6] == 0,
        ML_BASE@[7] == 10 && ML_BITS@[7] == 0,
        ML_BASE@[8] == 11 && ML_BITS@[8] == 0,
        ML_BASE@[9] == 12 && ML_BITS@[9] == 0,
        ML_BASE@[10] == 13 && ML_BITS@[10] == 0,
        ML_BASE@[11] == 14 && ML_BITS@[11] == 0,
        ML_BASE@[12] == 15 && ML_BITS@[12] == 0,
        ML_BASE@[13] == 16 && ML_BITS@[13] == 0,
        ML_BASE@[14] == 17 && ML_BITS@[14] == 0,
        ML_BASE@[15] == 18 && ML_BITS@[15] == 0,
        ML_BASE@[16] == 19 && ML_BITS@[16] == 0,
        ML_BASE@[17] == 20 && ML_BITS@[17] == 0,
        ML_BASE@[18] == 21 && ML_BITS@[18] == 0,
        ML_BASE@[19] == 22 && ML_BITS@[19] == 0,
        ML_BASE@[20] == 23 && ML_BITS@[20] == 0,
        ML_BASE@[21] == 24 && ML_BITS@[21] == 0,
        ML_BASE@[22] == 25 && ML_BITS@[22] == 0,
        ML_BASE@[23] == 26 && ML_BITS@[23] == 0,
        ML_BASE@[24] == 27 && ML_BITS@[24] == 0,
        ML_BASE@[25] == 28 && ML_BITS@[25] == 0,
        ML_BASE@[26] == 29 && ML_BITS@[26] == 0,
        ML_BASE@[27] == 30 && ML_BITS@[27] == 0,
        ML_BASE@[28] == 31 && ML_BITS@[28] == 0,
        ML_BASE@[29] == 32 && ML_BITS@[29] == 0,
        ML_BASE@[30] == 33 && ML_BITS@[30] == 0,
        ML_BASE@[31] == 34 && ML_BITS@[31] == 0,
        ML_BASE@[32] == 35 && ML_BITS@[32] == 1,
        ML_BASE@[33] == 37 && ML_BITS@[33] == 1,
        ML_BASE@[34] == 39 && ML_BITS@[34] == 1,
        ML_BASE@[35] == 41 && ML_BITS@[35] == 1,
        ML_BASE@[36] == 43 && ML_BITS@[36] == 2,
        ML_BASE@[37] == 47 && ML_BITS@[37] == 2,
        ML_BASE@[38] == 51 && ML_BITS@[38] == 3,
        ML_BASE@[39] == 59 && ML_BITS@[39] == 3,
        ML_BASE@[40] == 67 && ML_BITS@[40] == 4,
        ML_BASE@[41] == 83 && ML_BITS@[41] == 4,
        ML_BASE@[42] == 99 && ML_BITS@[42] == 5,
        ML_BASE@[43] == 131 && ML_BITS@[43] == 7,
        ML_BASE@[44] == 259 && ML_BITS@[44] == 8,
        ML_BASE@[45] == 515 && ML_BITS@[45] == 9,
        ML_BASE@[46] == 1027 && ML_BITS@[46] == 10,
        ML_BASE@[47] == 2051 && ML_BITS@[47] == 11,
        ML_BASE@[48] == 4099 && ML_BITS@[48] == 12,
        ML_BASE@[49] == 8195 && ML_BITS@[49] == 13,
        ML_BASE@[50] == 16387 && ML_BITS@[50] == 14,
        ML_BASE@[51] == 32771 && ML_BITS@[51] == 15,
        ML_BASE@[52] == 65539 && ML_BITS@[52] == 16,
{
}

/// Every literal length code has at most 16 extra bits, and its values fit 17 bits.
pub proof fn lemma_ll_bounds(c: int)
    requires
        0 <= c <= 35,
    ensures
        LL_BITS@[c] <= 16,
        LL_BASE@[c] <= 65536,
{
    lemma_ll_tables();
}

/// Every match length code has at most 16 extra bits, and its values fit 18 bits.
pub proof fn lemma_ml_bounds(c: int)
    requires
        0 <= c <= 52,
    ensures
        ML_BITS@[c] <= 16,
        3 <= ML_BASE@[c] <= 65539,
{
    lemma_ml_tables();
}

/// The code of the literal length `v`.
pub open spec fn ll_code_of(v: nat) -> nat {
    if v < 16 {
        v
    } else if v < 24 {
        16 + (v - 16) as nat / 2
    } else if v < 32 {
        20 + (v - 24) as nat / 4
    } else if v < 48 {
        22 + (v - 32) as nat / 8
    } else if v < 64 {
        24
    } else {
        bits::high_bit(v) + 19
    }
}

/// The code of the match length `v + 3`.
pub open spec fn ml_code_of(v: nat) -> nat {
    if v < 32 {
        v
    } else if v < 40 {
        32 + (v - 32) as nat / 2
    } else if v < 48 {
        36 + (v - 40) as nat / 4
    } else if v < 64 {
        38 + (v - 48) as nat / 8
    } else if v < 96 {
        40 + (v - 64) as nat / 16
    } else if v < 128 {
        42
    } else {
        bits::high_bit(v) + 36
    }
}

/// Literal length codes cover what they are the code of.
pub proof fn lemma_ll_code(v: nat)
    requires
        v < 131072,
    ensures
        ll_covers(ll_code_of(v) as int, v as int),
{
    lemma_ll_tables();
    lemma2_to64();
    if v >= 64 {
        lemma_wide_code(v);
    }
}

/// Match length codes cover what they are the code of.
pub proof fn lemma_ml_code(v: nat)
    requires
        v < 131072,
    ensures
        ml_covers(ml_code_of(v) as int, v as int + 3),
{
    lemma_ml_tables();
    lemma2_to64();
    if v >= 64 {
        lemma_wide_code(v);
    }
}

/// Code of a literal length.
pub fn ll_code(litlen: u32) -> (c: u8)
    ensures
        c == ll_code_of(litlen as nat),
{
    if litlen < 16 {
        litlen as u8
    } else if litlen < 24 {
        (16 + (litlen - 16) / 2) as u8
    } else if litlen < 32 {
        (20 + (litlen - 24) / 4) as u8
    } else if litlen < 48 {
        (22 + (litlen - 32) / 8) as u8
    } else if litlen < 64 {
        24
    } else {
        (high_bit_u64(litlen as u64) + 19) as u8
    }
}

/// Code of a match length, given as the length less the minimum match of 3.
pub fn ml_code(ml_base: u32) -> (c: u8)
    ensures
        c == ml_code_of(ml_base as nat),
{
    if ml_base < 32 {
        ml_base as u8
    } else if ml_base < 40 {
        (32 + (ml_base - 32) / 2) as u8
    } else if ml_base < 48 {
        (36 + (ml_base - 40) / 4) as u8
    } else if ml_base < 64 {
        (38 + (ml_base - 48) / 8) as u8
    } else if ml_base < 96 {
        (40 + (ml_base - 64) / 16) as u8
    } else if ml_base < 128 {
        42
    } else {
        (high_bit_u64(ml_base as u64) + 36) as u8
    }
}

/// From 64 on, the codes follow the powers of two.
proof fn lemma_wide_code(v: nat)
    requires
        64 <= v <= u32::MAX,
    ensures
        6 <= bits::high_bit(v) < 32,
        v < 131072 ==> bits::high_bit(v) <= 16,
        pow2(bits::high_bit(v)) <= v < 2 * pow2(bits::high_bit(v)),
        v >= 128 ==> bits::high_bit(v) >= 7,
{
    let h = bits::high_bit(v);
    bits::lemma_high_bit(v);
    lemma2_to64();
    lemma_pow2_unfold(h + 1);
    if h < 6 {
        bits::lemma_pow2_monotone(h + 1, 6);
    }
    if h < 7 {
        bits::lemma_pow2_monotone(h + 1, 7);
    }
    if h >= 17 {
        bits::lemma_pow2_monotone(17, h);
    }
    if h >= 32 {
        bits::lemma_pow2_monotone(32, h);
    }
}

/// Code of an offset value: the position of its highest set bit.
pub fn off_code(offset: u32) -> (c: u8)
    ensures
        c < 32,
        c == bits::high_bit(offset as nat),
        offset > 0 ==> pow2(c as nat) <= offset < 2 * pow2(c as nat),
{
    let h = highbit32(offset);
    proof {
        if offset > 0 {
            bits::lemma_high_bit(offset as nat);
            lemma_pow2_unfold((h + 1) as nat);
        }
    }
    h as u8
}

/// Highest set bit (0-indexed); 0 for the inputs 0 and 1.
fn highbit32(v: u32) -> (h: u32)
    ensures
        h == bits::high_bit(v as nat),
        h < 32,
{
    if v <= 1 {
        return 0;
    }
    proof {
        lemma2_to64();
        bits::lemma_high_bit(v as nat);
        if bits::high_bit(v as nat) >= 32 {
            bits::lemma_pow2_monotone(32, bits::high_bit(v as nat));
        }
    }
    high_bit_u64(v as u64)
}

} // verus!
