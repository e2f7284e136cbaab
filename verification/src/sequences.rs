//! Decoding of sequences sections and execution of sequences.
use crate::bitreader;
use crate::bitreader::{skip_padding, BitReaderReversed, RevBits};
use crate::bits;
use crate::bits::pow2_u32;
use crate::constants;
use crate::constants::{LL_BASE, LL_BITS, ML_BASE, ML_BITS};
use crate::error::{CodeKind, DecodeError};
use crate::fse_decode;
use crate::fse_decode::{FSEDecoder, FSETable, FseTab};
use crate::fse_table;
use vstd::arithmetic::power2::*;
use vstd::prelude::*;

verus! {

pub const MAX_LITERAL_LENGTH_CODE: u8 = 35;

pub const MAX_MATCH_LENGTH_CODE: u8 = 52;

pub const MAX_OFFSET_CODE: u8 = 31;

pub const LL_MAX_LOG: u8 = 9;

pub const ML_MAX_LOG: u8 = 9;

pub const OF_MAX_LOG: u8 = 8;

pub const LL_DEFAULT_ACC_LOG: u8 = 6;

pub const ML_DEFAULT_ACC_LOG: u8 = 6;

pub const OF_DEFAULT_ACC_LOG: u8 = 5;

// ---------------------------------------------------------------------------
// Section header
// ---------------------------------------------------------------------------

/// The number of sequences, the table modes, and the length of the header.
pub struct SeqHeader {
    pub num: nat,
    pub modes: Option<u8>,
    pub len: nat,
}

pub open spec fn sequences_header(src: Seq<u8>) -> Result<SeqHeader, DecodeError> {
    if src.len() == 0 {
        Err(DecodeError::SequencesHeaderEmpty)
    } else if src[0] == 0 {
        Ok(SeqHeader { num: 0, modes: None, len: 1 })
    } else if src[0] < 128 {
        if src.len() < 2 {
            Err(DecodeError::SequencesHeaderTooShort { have: src.len() as usize, need: 2 })
        } else {
            Ok(SeqHeader { num: src[0] as nat, modes: Some(src[1]), len: 2 })
        }
    } else if src[0] < 255 {
        if src.len() < 2 {
            Err(DecodeError::SequencesHeaderTooShort { have: src.len() as usize, need: 2 })
        } else {
            let num = ((src[0] - 128) * 256 + src[1]) as nat;
            if num == 0 {
                Ok(SeqHeader { num, modes: None, len: 2 })
            } else if src.len() < 3 {
                Err(DecodeError::SequencesHeaderTooShort { have: src.len() as usize, need: 3 })
            } else {
                Ok(SeqHeader { num, modes: Some(src[2]), len: 3 })
            }
        }
    } else if src.len() < 4 {
        Err(DecodeError::SequencesHeaderTooShort { have: src.len() as usize, need: 4 })
    } else {
        Ok(
            SeqHeader {
                num: (src[1] + 256 * src[2] + 0x7F00) as nat,
                modes: Some(src[3]),
                len: 4,
            },
        )
    }
}

#[derive(Debug, Clone, Copy, PartialEq, Eq, Structural)]
pub enum ModeType {
    Predefined,
    RLE,
    FSECompressed,
    Repeat,
}

pub open spec fn mode_of(m: int) -> ModeType {
    if m == 0 {
        ModeType::Predefined
    } else if m == 1 {
        ModeType::RLE
    } else if m == 2 {
        ModeType::FSECompressed
    } else {
        ModeType::Repeat
    }
}

/// The table modes of a sequences section, two bits each.
#[derive(Debug, Clone, Copy)]
pub struct CompressionModes(pub u8);

impl CompressionModes {
    pub fn decode_mode(m: u8) -> (t: ModeType)
        requires
            m < 4,
        ensures
            t == mode_of(m as int),
    {
        if m == 0 {
            ModeType::Predefined
        } else if m == 1 {
            ModeType::RLE
        } else if m == 2 {
            ModeType::FSECompressed
        } else {
            ModeType::Repeat
        }
    }

    pub fn ll_mode(self) -> (t: ModeType)
        ensures
            t == mode_of(self.0 as int / 64),
    {
        Self::decode_mode(self.0 / 64)
    }

    pub fn of_mode(self) -> (t: ModeType)
        ensures
            t == mode_of((self.0 as int / 16) % 4),
    {
        Self::decode_mode((self.0 / 16) % 4)
    }

    pub fn ml_mode(self) -> (t: ModeType)
        ensures
            t == mode_of((self.0 as int / 4) % 4),
    {
        Self::decode_mode((self.0 / 4) % 4)
    }
}

#[derive(Debug, Clone, Copy)]
pub struct SequencesHeader {
    pub num_sequences: u32,
    pub modes: Option<CompressionModes>,
}

impl SequencesHeader {
    pub open spec fn modes_byte(&self) -> Option<u8> {
        match self.modes {
            Some(m) => Some(m.0),
            None => None,
        }
    }

    pub fn new() -> (h: SequencesHeader)
        ensures
            h.num_sequences == 0,
            h.modes is None,
    {
        SequencesHeader { num_sequences: 0, modes: None }
    }

    /// Reads the header at the start of `source`; returns its length.  Where there are no
    /// sequences, the modes stay as they were.
    pub fn parse_from_header(&mut self, source: &[u8]) -> (r: Result<u8, DecodeError>)
        ensures
            match r {
                Ok(n) => {
                    &&& sequences_header(source@) matches Ok(h)
                    &&& n == h.len
                    &&& final(self).num_sequences == h.num
                    &&& if h.num == 0 {
                        final(self).modes == old(self).modes
                    } else {
                        final(self).modes_byte() == h.modes
                    }
                    &&& 1 <= n <= 4
                    &&& n <= source@.len()
                    &&& final(self).num_sequences < 0x2_0000
                },
                Err(e) => {
                    &&& sequences_header(source@) == Err::<SeqHeader, DecodeError>(e)
                    &&& final(self).modes == old(self).modes
                    &&& source@.len() != 2 || source@[0] == 255 ==> *final(self) == *old(self)
                },
            },
    {
        let have = source.len();
        if have == 0 {
            return Err(DecodeError::SequencesHeaderEmpty);
        }
        let first = source[0];
        if first == 0 {
            self.num_sequences = 0;
            Ok(1)
        } else if first < 128 {
            if have < 2 {
                return Err(DecodeError::SequencesHeaderTooShort { have, need: 2 });
            }
            self.num_sequences = first as u32;
            self.modes = Some(CompressionModes(source[1]));
            Ok(2)
        } else if first < 255 {
            if have < 2 {
                return Err(DecodeError::SequencesHeaderTooShort { have, need: 2 });
            }
            self.num_sequences = (first as u32 - 128) * 256 + source[1] as u32;
            if self.num_sequences == 0 {
                return Ok(2);
            }
            if have < 3 {
                return Err(DecodeError::SequencesHeaderTooShort { have, need: 3 });
            }
            self.modes = Some(CompressionModes(source[2]));
            Ok(3)
        } else {
            if have < 4 {
                return Err(DecodeError::SequencesHeaderTooShort { have, need: 4 });
            }
            self.num_sequences = source[1] as u32 + 256 * source[2] as u32 + 0x7F00;
            self.modes = Some(CompressionModes(source[3]));
            Ok(4)
        }
    }
}

// ---------------------------------------------------------------------------
// Tables
// ---------------------------------------------------------------------------

/// The predefined distributions.
pub const LITERALS_LENGTH_DEFAULT_DISTRIBUTION: [i32; 36] = [
    4, 3, 2, 2, 2, 2, 2, 2, 2, 2, 2, 2, 2, 1, 1, 1, 2, 2, 2, 2, 2, 2, 2, 2, 2, 3, 2, 1, 1, 1, 1,
    1, -1, -1, -1, -1,
];

pub const MATCH_LENGTH_DEFAULT_DISTRIBUTION: [i32; 53] = [
    1, 4, 3, 2, 2, 2, 2, 2, 2, 1, 1, 1, 1, 1, 1, 1, 1, 1, 1, 1, 1, 1, 1, 1, 1, 1, 1, 1, 1, 1, 1,
    1, 1, 1, 1, 1, 1, 1, 1, 1, 1, 1, 1, 1, 1, 1, -1, -1, -1, -1, -1, -1, -1,
];

pub const OFFSET_DEFAULT_DISTRIBUTION: [i32; 29] = [
    1, 1, 1, 1, 1, 1, 2, 2, 2, 1, 1, 1, 1, 1, 1, 1, 1, 1, 1, 1, 1, 1, 1, 1, -1, -1, -1, -1, -1,
];

#[verifier::opaque]
pub open spec fn ll_default() -> FseTab {
    FseTab { log: 6, probs: fse_decode::probs_of(LITERALS_LENGTH_DEFAULT_DISTRIBUTION@) }
}

#[verifier::opaque]
pub open spec fn ml_default() -> FseTab {
    FseTab { log: 6, probs: fse_decode::probs_of(MATCH_LENGTH_DEFAULT_DISTRIBUTION@) }
}

#[verifier::opaque]
pub open spec fn of_default() -> FseTab {
    FseTab { log: 5, probs: fse_decode::probs_of(OFFSET_DEFAULT_DISTRIBUTION@) }
}

pub proof fn lemma_ll_default()
    ensures
        fse_table::is_distribution(ll_default().probs, 6),
        ll_default().probs.len() == 36,
{
    reveal(ll_default);
    let p = ll_default().probs;
    lemma2_to64();
    assert(fse_table::cells_before(p, 0) == 0);
    assert(fse_table::cells_before(p, 1) == 4);
    assert(fse_table::cells_before(p, 2) == 7);
    assert(fse_table::cells_before(p, 3) == 9);
    assert(fse_table::cells_before(p, 4) == 11);
    assert(fse_table::cells_before(p, 5) == 13);
    assert(fse_table::cells_before(p, 6) == 15);
    assert(fse_table::cells_before(p, 7) == 17);
    assert(fse_table::cells_before(p, 8) == 19);
    assert(fse_table::cells_before(p, 9) == 21);
    assert(fse_table::cells_before(p, 10) == 23);
    assert(fse_table::cells_before(p, 11) == 25);
    assert(fse_table::cells_before(p, 12) == 27);
    assert(fse_table::cells_before(p, 13) == 29);
    assert(fse_table::cells_before(p, 14) == 30);
    assert(fse_table::cells_before(p, 15) == 31);
    assert(fse_table::cells_before(p, 16) == 32);
    assert(fse_table::cells_before(p, 17) == 34);
    assert(fse_table::cells_before(p, 18) == 36);
    assert(fse_table::cells_before(p, 19) == 38);
    assert(fse_table::cells_before(p, 20) == 40);
    assert(fse_table::cells_before(p, 21) == 42);
    assert(fse_table::cells_before(p, 22) == 44);
    assert(fse_table::cells_before(p, 23) == 46);
    assert(fse_table::cells_before(p, 24) == 48);
    assert(fse_table::cells_before(p, 25) == 50);
    assert(fse_table::cells_before(p, 26) == 53);
    assert(fse_table::cells_before(p, 27) == 55);
    assert(fse_table::cells_before(p, 28) == 56);
    assert(fse_table::cells_before(p, 29) == 57);
    assert(fse_table::cells_before(p, 30) == 58);
    assert(fse_table::cells_before(p, 31) == 59);
    assert(fse_table::cells_before(p, 32) == 60);
    assert(fse_table::cells_before(p, 33) == 61);
    assert(fse_table::cells_before(p, 34) == 62);
    assert(fse_table::cells_before(p, 35) == 63);
    assert(fse_table::cells_before(p, 36) == 64);
}

pub proof fn lemma_ml_default()
    ensures
        fse_table::is_distribution(ml_default().probs, 6),
        ml_default().probs.len() == 53,
{
    reveal(ml_default);
    let p = ml_default().probs;
    lemma2_to64();
    assert(fse_table::cells_before(p, 0) == 0);
    assert(fse_table::cells_before(p, 1) == 1);
    assert(fse_table::cells_before(p, 2) == 5);
    assert(fse_table::cells_before(p, 3) == 8);
    assert(fse_table::cells_before(p, 4) == 10);
    assert(fse_table::cells_before(p, 5) == 12);
    assert(fse_table::cells_before(p, 6) == 14);
    assert(fse_table::cells_before(p, 7) == 16);
    assert(fse_table::cells_before(p, 8) == 18);
    assert(fse_table::cells_before(p, 9) == 20);
    assert(fse_table::cells_before(p, 10) == 21);
    assert(fse_table::cells_before(p, 11) == 22);
    assert(fse_table::cells_before(p, 12) == 23);
    assert(fse_table::cells_before(p, 13) == 24);
    assert(fse_table::cells_before(p, 14) == 25);
    assert(fse_table::cells_before(p, 15) == 26);
    assert(fse_table::cells_before(p, 16) == 27);
    assert(fse_table::cells_before(p, 17) == 28);
    assert(fse_table::cells_before(p, 18) == 29);
    assert(fse_table::cells_before(p, 19) == 30);
    assert(fse_table::cells_before(p, 20) == 31);
    assert(fse_table::cells_before(p, 21) == 32);
    assert(fse_table::cells_before(p, 22) == 33);
    assert(fse_table::cells_before(p, 23) == 34);
    assert(fse_table::cells_before(p, 24) == 35);
    assert(fse_table::cells_before(p, 25) == 36);
    assert(fse_table::cells_before(p, 26) == 37);
    assert(fse_table::cells_before(p, 27) == 38);
    assert(fse_table::cells_before(p, 28) == 39);
    assert(fse_table::cells_before(p, 29) == 40);
    assert(fse_table::cells_before(p, 30) == 41);
    assert(fse_table::cells_before(p, 31) == 42);
    assert(fse_table::cells_before(p, 32) == 43);
    assert(fse_table::cells_before(p, 33) == 44);
    assert(fse_table::cells_before(p, 34) == 45);
    assert(fse_table::cells_before(p, 35) == 46);
    assert(fse_table::cells_before(p, 36) == 47);
    assert(fse_table::cells_before(p, 37) == 48);
    assert(fse_table::cells_before(p, 38) == 49);
    assert(fse_table::cells_before(p, 39) == 50);
    assert(fse_table::cells_before(p, 40) == 51);
    assert(fse_table::cells_before(p, 41) == 52);
    assert(fse_table::cells_before(p, 42) == 53);
    assert(fse_table::cells_before(p, 43) == 54);
    assert(fse_table::cells_before(p, 44) == 55);
    assert(fse_table::cells_before(p, 45) == 56);
    assert(fse_table::cells_before(p, 46) == 57);
    assert(fse_table::cells_before(p, 47) == 58);
    assert(fse_table::cells_before(p, 48) == 59);
    assert(fse_table::cells_before(p, 49) == 60);
    assert(fse_table::cells_before(p, 50) == 61);
    assert(fse_table::cells_before(p, 51) == 62);
    assert(fse_table::cells_before(p, 52) == 63);
    assert(fse_table::cells_before(p, 53) == 64);
}

pub proof fn lemma_of_default()
    ensures
        fse_table::is_distribution(of_default().probs, 5),
        of_default().probs.len() == 29,
{
    reveal(of_default);
    let p = of_default().probs;
    lemma2_to64();
    assert(fse_table::cells_before(p, 0) == 0);
    assert(fse_table::cells_before(p, 1) == 1);
    assert(fse_table::cells_before(p, 2) == 2);
    assert(fse_table::cells_before(p, 3) == 3);
    assert(fse_table::cells_before(p, 4) == 4);
    assert(fse_table::cells_before(p, 5) == 5);
    assert(fse_table::cells_before(p, 6) == 6);
    assert(fse_table::cells_before(p, 7) == 8);
    assert(fse_table::cells_before(p, 8) == 10);
    assert(fse_table::cells_before(p, 9) == 12);
    assert(fse_table::cells_before(p, 10) == 13);
    assert(fse_table::cells_before(p, 11) == 14);
    assert(fse_table::cells_before(p, 12) == 15);
    assert(fse_table::cells_before(p, 13) == 16);
    assert(fse_table::cells_before(p, 14) == 17);
    assert(fse_table::cells_before(p, 15) == 18);
    assert(fse_table::cells_before(p, 16) == 19);
    assert(fse_table::cells_before(p, 17) == 20);
    assert(fse_table::cells_before(p, 18) == 21);
    assert(fse_table::cells_before(p, 19) == 22);
    assert(fse_table::cells_before(p, 20) == 23);
    assert(fse_table::cells_before(p, 21) == 24);
    assert(fse_table::cells_before(p, 22) == 25);
    assert(fse_table::cells_before(p, 23) == 26);
    assert(fse_table::cells_before(p, 24) == 27);
    assert(fse_table::cells_before(p, 25) == 28);
    assert(fse_table::cells_before(p, 26) == 29);
    assert(fse_table::cells_before(p, 27) == 30);
    assert(fse_table::cells_before(p, 28) == 31);
    assert(fse_table::cells_before(p, 29) == 32);
}

/// One code table: an FSE table, or a single code for every sequence.
#[verifier::ext_equal]
pub struct CodeTab {
    pub tab: FseTab,
    pub rle: Option<u8>,
}

impl CodeTab {
    pub open spec fn empty() -> CodeTab {
        CodeTab { tab: FseTab::empty(), rle: None }
    }

    /// A single code hides the table.
    pub open spec fn of(tab: FseTab, rle: Option<u8>) -> CodeTab {
        if rle is Some {
            CodeTab { tab: FseTab::empty(), rle }
        } else {
            CodeTab { tab, rle }
        }
    }

    /// The code at cell `p`.
    pub open spec fn code(self, p: nat) -> int {
        match self.rle {
            Some(c) => c as int,
            None => self.tab.symbol(p),
        }
    }

    pub open spec fn first(self, r: RevBits) -> nat {
        if self.rle is Some {
            0
        } else {
            r.peek(self.tab.log)
        }
    }

    pub open spec fn after_first(self, r: RevBits) -> RevBits {
        if self.rle is Some {
            r
        } else {
            r.skip(self.tab.log)
        }
    }

    pub open spec fn next(self, p: nat, r: RevBits) -> nat {
        if self.rle is Some {
            p
        } else {
            self.tab.step(p, r)
        }
    }

    pub open spec fn after_next(self, p: nat, r: RevBits) -> RevBits {
        if self.rle is Some {
            r
        } else {
            r.skip(self.tab.next(p).bits)
        }
    }

    pub open spec fn is_ready(self) -> bool {
        self.rle is Some || self.tab.log > 0
    }
}

/// The three code tables.
#[verifier::ext_equal]
pub struct CodeTabs {
    pub ll: CodeTab,
    pub of: CodeTab,
    pub ml: CodeTab,
}

impl CodeTabs {
    pub open spec fn empty() -> CodeTabs {
        CodeTabs { ll: CodeTab::empty(), of: CodeTab::empty(), ml: CodeTab::empty() }
    }
}

/// A code table after a table description of the given mode, and the bytes of the
/// description.
#[verifier::opaque]
pub open spec fn update_tab(
    old_tab: CodeTab,
    mode: ModeType,
    src: Seq<u8>,
    default: FseTab,
    max_log: nat,
    max_code: nat,
    kind: CodeKind,
) -> Result<(CodeTab, nat), DecodeError> {
    match mode {
        ModeType::FSECompressed => match fse_decode::fse_header(src, max_log, max_code) {
            Err(e) => Err(e),
            Ok(h) => Ok(
                (CodeTab { tab: FseTab { log: h.log, probs: h.probs }, rle: None }, h.bytes),
            ),
        },
        ModeType::RLE => if src.len() == 0 {
            Err(DecodeError::MissingRleByte { kind })
        } else if src[0] > max_code {
            Err(DecodeError::RleCodeTooLarge { kind, code: src[0] })
        } else {
            Ok((CodeTab::of(old_tab.tab, Some(src[0])), 1))
        },
        ModeType::Predefined => Ok((CodeTab { tab: default, rle: None }, 0)),
        ModeType::Repeat => Ok((old_tab, 0)),
    }
}

/// The three code tables after their descriptions, and the bytes of these.
pub open spec fn update_tabs(tabs: CodeTabs, modes: Option<u8>, src: Seq<u8>) -> Result<
    (CodeTabs, nat),
    DecodeError,
> {
    match modes {
        None => Err(DecodeError::MissingCompressionModes),
        Some(m) => match update_tab(
            tabs.ll,
            mode_of(m as int / 64),
            src,
            ll_default(),
            9,
            35,
            CodeKind::LiteralLength,
        ) {
            Err(e) => Err(e),
            Ok((ll, n1)) => match update_tab(
                tabs.of,
                mode_of((m as int / 16) % 4),
                src.skip(n1 as int),
                of_default(),
                8,
                31,
                CodeKind::Offset,
            ) {
                Err(e) => Err(e),
                Ok((of, n2)) => match update_tab(
                    tabs.ml,
                    mode_of((m as int / 4) % 4),
                    src.skip((n1 + n2) as int),
                    ml_default(),
                    9,
                    52,
                    CodeKind::MatchLength,
                ) {
                    Err(e) => Err(e),
                    Ok((ml, n3)) => Ok((CodeTabs { ll, of, ml }, n1 + n2 + n3)),
                },
            },
        },
    }
}

pub struct FSEScratch {
    pub offsets: FSETable,
    pub of_rle: Option<u8>,
    pub literal_lengths: FSETable,
    pub ll_rle: Option<u8>,
    pub match_lengths: FSETable,
    pub ml_rle: Option<u8>,
}

impl FSEScratch {
    pub open spec fn view(&self) -> CodeTabs {
        CodeTabs {
            ll: CodeTab::of(self.literal_lengths@, self.ll_rle),
            of: CodeTab::of(self.offsets@, self.of_rle),
            ml: CodeTab::of(self.match_lengths@, self.ml_rle),
        }
    }

    /// The tables are for their kinds of codes.
    pub open spec fn has_kinds(&self) -> bool {
        &&& self.literal_lengths.max_symbol == 35
        &&& self.offsets.max_symbol == 31
        &&& self.match_lengths.max_symbol == 52
    }

    pub open spec fn wf(&self) -> bool {
        &&& self.has_kinds()
        &&& self.literal_lengths.wf()
        &&& self.offsets.wf()
        &&& self.match_lengths.wf()
        &&& self.ll_rle matches Some(c) ==> c <= 35
        &&& self.of_rle matches Some(c) ==> c <= 31
        &&& self.ml_rle matches Some(c) ==> c <= 52
    }

    pub fn new() -> (s: FSEScratch)
        ensures
            s.wf(),
            s@ == CodeTabs::empty(),
    {
        FSEScratch {
            offsets: FSETable::new(MAX_OFFSET_CODE),
            of_rle: None,
            literal_lengths: FSETable::new(MAX_LITERAL_LENGTH_CODE),
            ll_rle: None,
            match_lengths: FSETable::new(MAX_MATCH_LENGTH_CODE),
            ml_rle: None,
        }
    }

    /// Forgets the tables.
    pub fn reset(&mut self)
        requires
            old(self).has_kinds(),
        ensures
            final(self).wf(),
            final(self)@ == CodeTabs::empty(),
    {
        self.literal_lengths.reset();
        self.match_lengths.reset();
        self.offsets.reset();
        self.ll_rle = None;
        self.ml_rle = None;
        self.of_rle = None;
    }
}

/// Applies one table description; returns its bytes.
fn update_fse_table(
    mode: ModeType,
    source: &[u8],
    table: &mut FSETable,
    rle: &mut Option<u8>,
    max_log: u8,
    default_log: u8,
    default_probs: &[i32],
    kind: CodeKind,
) -> (r: Result<usize, DecodeError>)
    requires
        8 * source@.len() <= usize::MAX,
        old(table).wf(),
        max_log <= 15,
        default_log > 0,
        fse_table::is_distribution(fse_decode::probs_of(default_probs@), default_log as nat),
        default_probs@.len() <= old(table).max_symbol + 1,
        *old(rle) matches Some(c) ==> c <= old(table).max_symbol,
    ensures
        final(table).max_symbol == old(table).max_symbol,
        match r {
            Ok(n) => {
                &&& final(table).wf()
                &&& update_tab(
                    CodeTab::of(old(table)@, *old(rle)),
                    mode,
                    source@,
                    FseTab {
                        log: default_log as nat,
                        probs: fse_decode::probs_of(default_probs@),
                    },
                    max_log as nat,
                    old(table).max_symbol as nat,
                    kind,
                ) == Ok::<(CodeTab, nat), DecodeError>(
                    (CodeTab::of(final(table)@, *final(rle)), n as nat),
                )
                &&& n <= source@.len()
                &&& *final(rle) matches Some(c) ==> c <= old(table).max_symbol
            },
            Err(e) => update_tab(
                CodeTab::of(old(table)@, *old(rle)),
                mode,
                source@,
                FseTab { log: default_log as nat, probs: fse_decode::probs_of(default_probs@) },
                max_log as nat,
                old(table).max_symbol as nat,
                kind,
            ) == Err::<(CodeTab, nat), DecodeError>(e) && *final(rle) == *old(rle) && (
            mode is RLE ==> *final(table) == *old(table)),
        },
{
    reveal(update_tab);
    match mode {
        ModeType::FSECompressed => {
            match table.build_decoder(source, max_log) {
                Ok(bytes) => {
                    *rle = None;
                    Ok(bytes)
                },
                Err(e) => Err(e),
            }
        },
        ModeType::RLE => {
            if source.len() == 0 {
                return Err(DecodeError::MissingRleByte { kind });
            }
            let code = source[0];
            if code > table.max_symbol {
                return Err(DecodeError::RleCodeTooLarge { kind, code });
            }
            *rle = Some(code);
            Ok(1)
        },
        ModeType::Predefined => {
            match table.build_from_probabilities(default_log, default_probs) {
                Ok(_) => {
                    *rle = None;
                    Ok(0)
                },
                Err(e) => Err(e),
            }
        },
        ModeType::Repeat => Ok(0),
    }
}

/// Applies the table descriptions of a section; returns their bytes.
pub fn maybe_update_fse_tables(
    section: &SequencesHeader,
    source: &[u8],
    scratch: &mut FSEScratch,
) -> (r: Result<usize, DecodeError>)
    requires
        8 * source@.len() <= usize::MAX,
        old(scratch).wf(),
    ensures
        final(scratch).has_kinds(),
        match r {
            Ok(n) => final(scratch).wf() && update_tabs(
                old(scratch)@,
                section.modes_byte(),
                source@,
            ) == Ok::<(CodeTabs, nat), DecodeError>((final(scratch)@, n as nat)) && n
                <= source@.len(),
            Err(e) => {
                &&& update_tabs(old(scratch)@, section.modes_byte(), source@) == Err::<
                    (CodeTabs, nat),
                    DecodeError,
                >(e)
                &&& final(scratch).ml_rle == old(scratch).ml_rle
                &&& section.modes is None ==> *final(scratch) == *old(scratch)
                &&& (section.modes matches Some(m) && update_tab(
                    old(scratch)@.ll,
                    mode_of(m.0 as int / 64),
                    source@,
                    ll_default(),
                    9,
                    35,
                    CodeKind::LiteralLength,
                ) is Err) ==> {
                    &&& final(scratch).ll_rle == old(scratch).ll_rle
                    &&& final(scratch).offsets == old(scratch).offsets
                    &&& final(scratch).of_rle == old(scratch).of_rle
                    &&& final(scratch).match_lengths == old(scratch).match_lengths
                }
            },
        },
{
    let modes = match section.modes {
        Some(m) => m,
        None => {
            return Err(DecodeError::MissingCompressionModes);
        },
    };
    proof {
        reveal(ll_default);
        reveal(ml_default);
        reveal(of_default);
        lemma_ll_default();
        lemma_ml_default();
        lemma_of_default();
    }
    let n1 = match update_fse_table(
        modes.ll_mode(),
        source,
        &mut scratch.literal_lengths,
        &mut scratch.ll_rle,
        LL_MAX_LOG,
        LL_DEFAULT_ACC_LOG,
        &LITERALS_LENGTH_DEFAULT_DISTRIBUTION,
        CodeKind::LiteralLength,
    ) {
        Ok(n) => n,
        Err(e) => {
            return Err(e);
        },
    };
    let of_source = &source[n1..source.len()];
    assert(of_source@ =~= source@.skip(n1 as int));
    let n2 = match update_fse_table(
        modes.of_mode(),
        of_source,
        &mut scratch.offsets,
        &mut scratch.of_rle,
        OF_MAX_LOG,
        OF_DEFAULT_ACC_LOG,
        &OFFSET_DEFAULT_DISTRIBUTION,
        CodeKind::Offset,
    ) {
        Ok(n) => n,
        Err(e) => {
            return Err(e);
        },
    };
    let ml_source = &source[n1 + n2..source.len()];
    assert(ml_source@ =~= source@.skip((n1 + n2) as int));
    let n3 = match update_fse_table(
        modes.ml_mode(),
        ml_source,
        &mut scratch.match_lengths,
        &mut scratch.ml_rle,
        ML_MAX_LOG,
        ML_DEFAULT_ACC_LOG,
        &MATCH_LENGTH_DEFAULT_DISTRIBUTION,
        CodeKind::MatchLength,
    ) {
        Ok(n) => n,
        Err(e) => {
            return Err(e);
        },
    };
    Ok(n1 + n2 + n3)
}

// ---------------------------------------------------------------------------
// Sequences
// ---------------------------------------------------------------------------

/// A sequence: copy `ll` literals, then `ml` bytes from the offset that the
/// offset value `of` stands for.
#[derive(Debug, Clone, Copy)]
pub struct Sequence {
    pub ll: u32,
    pub ml: u32,
    pub of: u32,
}

/// The base value and the extra bits of a literal length code.
pub fn lookup_ll_code(code: u8) -> (r: Result<(u32, u8), DecodeError>)
    ensures
        code <= 35 ==> r == Ok::<(u32, u8), DecodeError>(
            (LL_BASE@[code as int], LL_BITS@[code as int]),
        ),
        code > 35 ==> r == Err::<(u32, u8), DecodeError>(
            DecodeError::IllegalLiteralLengthCode { code },
        ),
{
    if code > MAX_LITERAL_LENGTH_CODE {
        return Err(DecodeError::IllegalLiteralLengthCode { code });
    }
    Ok((LL_BASE[code as usize], LL_BITS[code as usize]))
}

/// The base value and the extra bits of a match length code.
pub fn lookup_ml_code(code: u8) -> (r: Result<(u32, u8), DecodeError>)
    ensures
        code <= 52 ==> r == Ok::<(u32, u8), DecodeError>(
            (ML_BASE@[code as int], ML_BITS@[code as int]),
        ),
        code > 52 ==> r == Err::<(u32, u8), DecodeError>(
            DecodeError::IllegalMatchLengthCode { code },
        ),
{
    if code > MAX_MATCH_LENGTH_CODE {
        return Err(DecodeError::IllegalMatchLengthCode { code });
    }
    Ok((ML_BASE[code as usize], ML_BITS[code as usize]))
}

/// The sequence with the given codes whose extra bits come next: those of the
/// offset, then those of the match length, then those of the literal length.
pub open spec fn read_sequence(llc: int, mlc: int, ofc: int, r: RevBits) -> Sequence {
    let r1 = r.skip(ofc as nat);
    let r2 = r1.skip(ML_BITS@[mlc] as nat);
    Sequence {
        ll: (LL_BASE@[llc] + r2.peek(LL_BITS@[llc] as nat)) as u32,
        ml: (ML_BASE@[mlc] + r1.peek(ML_BITS@[mlc] as nat)) as u32,
        of: (pow2(ofc as nat) + r.peek(ofc as nat)) as u32,
    }
}

/// Decodes `n` more sequences from the given cells of the three tables.
pub open spec fn read_sequences(
    t: CodeTabs,
    n: nat,
    sll: nat,
    sof: nat,
    sml: nat,
    r: RevBits,
    acc: Seq<Sequence>,
) -> Result<Seq<Sequence>, DecodeError>
    decreases n,
{
    if n == 0 {
        if r.remaining() > 0 {
            Err(DecodeError::ExtraBits { bits: r.remaining() as i64 })
        } else {
            Ok(acc)
        }
    } else {
        let llc = t.ll.code(sll);
        let mlc = t.ml.code(sml);
        let ofc = t.of.code(sof);
        let seq = read_sequence(llc, mlc, ofc, r);
        let r1 = r.skip(ofc as nat).skip(ML_BITS@[mlc] as nat).skip(LL_BITS@[llc] as nat);
        let acc1 = acc.push(seq);
        if n == 1 {
            if r1.remaining() < 0 {
                Err(DecodeError::NotEnoughSequenceBytes)
            } else {
                read_sequences(t, 0, sll, sof, sml, r1, acc1)
            }
        } else {
            let r2 = t.ll.after_next(sll, r1);
            let r3 = t.ml.after_next(sml, r2);
            let r4 = t.of.after_next(sof, r3);
            if r4.remaining() < 0 {
                Err(DecodeError::NotEnoughSequenceBytes)
            } else {
                read_sequences(
                    t,
                    (n - 1) as nat,
                    t.ll.next(sll, r1),
                    t.of.next(sof, r3),
                    t.ml.next(sml, r2),
                    r4,
                    acc1,
                )
            }
        }
    }
}

/// What the sequences of a stream are, once its closing bits are skipped.
pub open spec fn stream_sequences(t: CodeTabs, num: nat, r: RevBits) -> Result<
    Seq<Sequence>,
    DecodeError,
> {
    if !t.ll.is_ready() || !t.of.is_ready() || !t.ml.is_ready() {
        Err(DecodeError::FseTableUninitialized)
    } else {
        let r1 = t.ll.after_first(r);
        let r2 = t.of.after_first(r1);
        let r3 = t.ml.after_first(r2);
        read_sequences(
            t,
            num,
            t.ll.first(r),
            t.of.first(r1),
            t.ml.first(r2),
            r3,
            Seq::empty(),
        )
    }
}

/// The sequences of a section: `src` is what follows the section header.  Also
/// gives the code tables that the section leaves behind.
#[verifier::opaque]
pub open spec fn section_sequences(
    tabs: CodeTabs,
    modes: Option<u8>,
    num: nat,
    src: Seq<u8>,
) -> Result<(Seq<Sequence>, CodeTabs), DecodeError> {
    match update_tabs(tabs, modes, src) {
        Err(e) => Err(e),
        Ok((t, n)) => match bitreader::stream_start(src.skip(n as int)) {
            Err(e) => Err(e),
            Ok(r) => match stream_sequences(t, num, r) {
                Err(e) => Err(e),
                Ok(s) => Ok((s, t)),
            },
        },
    }
}

/// Follows one of the code tables along a stream.
struct CodeDecoder<'t> {
    fse: FSEDecoder<'t>,
    rle: Option<u8>,
}

impl<'t> CodeDecoder<'t> {
    spec fn tab(&self) -> CodeTab {
        CodeTab::of(self.fse.table@, self.rle)
    }

    spec fn wf(&self) -> bool {
        &&& self.fse.table.wf()
        &&& self.rle is None ==> self.fse.wf()
        &&& self.rle matches Some(c) ==> c <= self.fse.table.max_symbol
    }

    /// Reads the first state, unless there is only one code.
    fn new(table: &'t FSETable, rle: Option<u8>, br: &mut BitReaderReversed<'_>) -> (r: Result<
        CodeDecoder<'t>,
        DecodeError,
    >)
        requires
            table.wf(),
            rle matches Some(c) ==> c <= table.max_symbol,
            old(br).wf(),
            old(br)@.wf(),
            old(br)@.debt <= 1000,
        ensures
            final(br).wf(),
            match r {
                Ok(d) => {
                    &&& d.wf()
                    &&& d.tab() == CodeTab::of(table@, rle)
                    &&& d.tab().is_ready()
                    &&& d.fse.table.max_symbol == table.max_symbol
                    &&& d.rle is None ==> d.fse.at@ == d.tab().first(old(br)@)
                    &&& final(br)@ == d.tab().after_first(old(br)@)
                    &&& final(br)@.wf()
                    &&& final(br)@.debt <= old(br)@.debt + 15
                },
                Err(e) => e == DecodeError::FseTableUninitialized && !CodeTab::of(
                    table@,
                    rle,
                ).is_ready(),
            },
    {
        let mut fse = FSEDecoder::new(table);
        proof {
            bitreader::lemma_skip(br@, table@.log);
        }
        if rle.is_none() {
            match fse.init_state(br) {
                Ok(_) => {},
                Err(e) => {
                    return Err(e);
                },
            }
        }
        Ok(CodeDecoder { fse, rle })
    }

    fn code(&self) -> (c: u8)
        requires
            self.wf(),
        ensures
            c == self.tab().code(self.fse.at@),
            c <= self.fse.table.max_symbol,
    {
        match self.rle {
            Some(c) => c,
            None => {
                proof {
                    fse_decode::lemma_tab_cell(self.fse.table@, self.fse.at@);
                }
                self.fse.decode_symbol()
            },
        }
    }

    fn advance(&mut self, br: &mut BitReaderReversed<'_>)
        requires
            old(self).wf(),
            old(br).wf(),
            old(br)@.wf(),
            old(br)@.debt <= 1000,
        ensures
            final(self).wf(),
            final(self).tab() == old(self).tab(),
            final(self).fse.table.max_symbol == old(self).fse.table.max_symbol,
            final(self).fse.at@ == old(self).tab().next(old(self).fse.at@, old(br)@),
            final(br).wf(),
            final(br)@ == old(self).tab().after_next(old(self).fse.at@, old(br)@),
            final(br)@.wf(),
            final(br)@.debt <= old(br)@.debt + 15,
    {
        if self.rle.is_none() {
            proof {
                fse_decode::lemma_tab_cell(self.fse.table@, self.fse.at@);
                bitreader::lemma_skip(br@, self.fse.table@.next(self.fse.at@).bits);
            }
            self.fse.update_state(br);
        }
    }
}

/// How a sequence other than the last is read, step by step.
pub proof fn lemma_read_sequences_step(
    t: CodeTabs,
    n: nat,
    s: (nat, nat, nat),
    r: RevBits,
    r1: RevBits,
    r2: RevBits,
    r3: RevBits,
    r4: RevBits,
    acc: Seq<Sequence>,
)
    requires
        n > 1,
        r1 == r.skip(t.of.code(s.1) as nat).skip(ML_BITS@[t.ml.code(s.2)] as nat).skip(
            LL_BITS@[t.ll.code(s.0)] as nat,
        ),
        r2 == t.ll.after_next(s.0, r1),
        r3 == t.ml.after_next(s.2, r2),
        r4 == t.of.after_next(s.1, r3),
        r4.remaining() >= 0,
    ensures
        read_sequences(t, n, s.0, s.1, s.2, r, acc) == read_sequences(
            t,
            (n - 1) as nat,
            t.ll.next(s.0, r1),
            t.of.next(s.1, r3),
            t.ml.next(s.2, r2),
            r4,
            acc.push(read_sequence(t.ll.code(s.0), t.ml.code(s.2), t.of.code(s.1), r)),
        ),
{
}

/// What a decoder does at one code does not depend on the cell of a table that has
/// a single code.
pub proof fn lemma_read_sequences_cells(
    t: CodeTabs,
    n: nat,
    a: (nat, nat, nat),
    b: (nat, nat, nat),
    r: RevBits,
    acc: Seq<Sequence>,
)
    requires
        t.ll.rle is Some || a.0 == b.0,
        t.of.rle is Some || a.1 == b.1,
        t.ml.rle is Some || a.2 == b.2,
    ensures
        read_sequences(t, n, a.0, a.1, a.2, r, acc) == read_sequences(
            t,
            n,
            b.0,
            b.1,
            b.2,
            r,
            acc,
        ),
    decreases n,
{
    if n > 0 {
        let llc = t.ll.code(a.0);
        let mlc = t.ml.code(a.2);
        let ofc = t.of.code(a.1);
        let seq = read_sequence(llc, mlc, ofc, r);
        let r1 = r.skip(ofc as nat).skip(ML_BITS@[mlc] as nat).skip(LL_BITS@[llc] as nat);
        let acc1 = acc.push(seq);
        if n == 1 {
            lemma_read_sequences_cells(t, 0, a, b, r1, acc1);
        } else {
            let r2 = t.ll.after_next(a.0, r1);
            let r3 = t.ml.after_next(a.2, r2);
            let r4 = t.of.after_next(a.1, r3);
            lemma_read_sequences_cells(
                t,
                (n - 1) as nat,
                (t.ll.next(a.0, r1), t.of.next(a.1, r3), t.ml.next(a.2, r2)),
                (t.ll.next(b.0, r1), t.of.next(b.1, r3), t.ml.next(b.2, r2)),
                r4,
                acc1,
            );
        }
    }
}

/// Reads the sequence whose codes are given.
fn decode_sequence(llc: u8, mlc: u8, ofc: u8, br: &mut BitReaderReversed<'_>) -> (r: Result<
    Sequence,
    DecodeError,
>)
    requires
        llc <= 35,
        mlc <= 52,
        ofc <= 31,
        old(br).wf(),
        old(br)@.wf(),
        old(br)@.debt <= 1000,
    ensures
        final(br).wf(),
        final(br)@.wf(),
        final(br)@ == old(br)@.skip(ofc as nat).skip(ML_BITS@[mlc as int] as nat).skip(
            LL_BITS@[llc as int] as nat,
        ),
        final(br)@.debt <= old(br)@.debt + 100,
        r == Ok::<Sequence, DecodeError>(
            read_sequence(llc as int, mlc as int, ofc as int, old(br)@),
        ),
        read_sequence(llc as int, mlc as int, ofc as int, old(br)@).of >= 1,
{
    proof {
        constants::lemma_ll_bounds(llc as int);
        constants::lemma_ml_bounds(mlc as int);
    }
    let (ll_base, ll_bits) = match lookup_ll_code(llc) {
        Ok(x) => x,
        Err(e) => {
            return Err(e);
        },
    };
    let (ml_base, ml_bits) = match lookup_ml_code(mlc) {
        Ok(x) => x,
        Err(e) => {
            return Err(e);
        },
    };
    let ghost start = br@;
    proof {
        bitreader::lemma_skip(start, ofc as nat);
        bitreader::lemma_skip(start.skip(ofc as nat), ml_bits as nat);
        bitreader::lemma_skip(start.skip(ofc as nat).skip(ml_bits as nat), ll_bits as nat);
        lemma2_to64();
        bits::lemma_pow2_monotone(ofc as nat, 31);
        bits::lemma_pow2_monotone(ml_bits as nat, 16);
        bits::lemma_pow2_monotone(ll_bits as nat, 16);
    }
    let (offset_bits, ml_add, ll_add) = br.get_bits_triple(ofc, ml_bits, ll_bits);
    let of = offset_bits as u32 + pow2_u32(ofc as u32);
    Ok(Sequence { ll: ll_base + ll_add as u32, ml: ml_base + ml_add as u32, of })
}

/// Decodes the sequences of a section into `target`; `source` is what follows the
/// section header.
pub fn decode_sequences(
    section: &SequencesHeader,
    source: &[u8],
    scratch: &mut FSEScratch,
    target: &mut Vec<Sequence>,
) -> (r: Result<(), DecodeError>)
    requires
        source@.len() <= bitreader::MAX_REVERSED_SOURCE,
        old(scratch).wf(),
    ensures
        final(scratch).has_kinds(),
        match r {
            Ok(_) => final(scratch).wf() && section_sequences(
                old(scratch)@,
                section.modes_byte(),
                section.num_sequences as nat,
                source@,
            ) == Ok::<(Seq<Sequence>, CodeTabs), DecodeError>((final(target)@, final(scratch)@))
                && forall|i: int|
                0 <= i < final(target)@.len() ==> (#[trigger] final(target)@[i]).of >= 1,
            Err(e) => section_sequences(
                old(scratch)@,
                section.modes_byte(),
                section.num_sequences as nat,
                source@,
            ) == Err::<(Seq<Sequence>, CodeTabs), DecodeError>(e),
        },
        update_tabs(old(scratch)@, section.modes_byte(), source@) is Err ==> final(target)@
            == old(target)@,
        section.modes is None ==> *final(scratch) == *old(scratch),
{
    reveal(section_sequences);
    let bytes_read = match maybe_update_fse_tables(section, source, scratch) {
        Ok(n) => n,
        Err(e) => {
            return Err(e);
        },
    };
    let bit_stream = &source[bytes_read..source.len()];
    assert(bit_stream@ =~= source@.skip(bytes_read as int));
    let mut br = BitReaderReversed::new(bit_stream);
    proof {
        bitreader::lemma_start_wf(br@, 0);
    }
    match skip_padding(&mut br) {
        Ok(_) => {},
        Err(e) => {
            return Err(e);
        },
    }
    decode_sequences_from(section.num_sequences, &mut br, scratch, target)
}

fn decode_sequences_from(
    num: u32,
    br: &mut BitReaderReversed<'_>,
    scratch: &FSEScratch,
    target: &mut Vec<Sequence>,
) -> (r: Result<(), DecodeError>)
    requires
        scratch.wf(),
        old(br).wf(),
        old(br)@.wf(),
        old(br)@.debt <= 9,
    ensures
        match r {
            Ok(_) => stream_sequences(scratch@, num as nat, old(br)@) == Ok::<
                Seq<Sequence>,
                DecodeError,
            >(final(target)@) && forall|i: int|
                0 <= i < final(target)@.len() ==> (#[trigger] final(target)@[i]).of >= 1,
            Err(e) => stream_sequences(scratch@, num as nat, old(br)@) == Err::<
                Seq<Sequence>,
                DecodeError,
            >(e),
        },
{
    let ghost t = scratch@;
    let ghost r0 = br@;
    let ghost r1 = t.ll.after_first(r0);
    let ghost r2 = t.of.after_first(r1);
    let mut ll_dec = match CodeDecoder::new(&scratch.literal_lengths, scratch.ll_rle, br) {
        Ok(d) => d,
        Err(e) => {
            return Err(e);
        },
    };
    let mut of_dec = match CodeDecoder::new(&scratch.offsets, scratch.of_rle, br) {
        Ok(d) => d,
        Err(e) => {
            return Err(e);
        },
    };
    let mut ml_dec = match CodeDecoder::new(&scratch.match_lengths, scratch.ml_rle, br) {
        Ok(d) => d,
        Err(e) => {
            return Err(e);
        },
    };
    target.clear();
    let ghost goal = stream_sequences(t, num as nat, r0);
    proof {
        lemma_read_sequences_cells(
            t,
            num as nat,
            (t.ll.first(r0), t.of.first(r1), t.ml.first(r2)),
            (ll_dec.fse.at@, of_dec.fse.at@, ml_dec.fse.at@),
            br@,
            target@,
        );
        assert(target@ =~= Seq::empty());
    }
    let mut left = num;
    while left > 0
        invariant
            left <= num,
            ll_dec.wf(),
            of_dec.wf(),
            ml_dec.wf(),
            ll_dec.tab() == t.ll,
            of_dec.tab() == t.of,
            ml_dec.tab() == t.ml,
            ll_dec.fse.table.max_symbol == 35,
            of_dec.fse.table.max_symbol == 31,
            ml_dec.fse.table.max_symbol == 52,
            br.wf(),
            br@.wf(),
            br@.debt <= 60,
            forall|i: int| 0 <= i < target@.len() ==> (#[trigger] target@[i]).of >= 1,
            goal == read_sequences(
                t,
                left as nat,
                ll_dec.fse.at@,
                of_dec.fse.at@,
                ml_dec.fse.at@,
                br@,
                target@,
            ),
            goal == stream_sequences(t, num as nat, r0),
            r0 == old(br)@,
            t == scratch@,
        decreases left,
    {
        let ll_code = ll_dec.code();
        let ml_code = ml_dec.code();
        let of_code = of_dec.code();
        match decode_sequence(ll_code, ml_code, of_code, br) {
            Ok(seq) => {
                target.push(seq);
            },
            Err(e) => {
                return Err(e);
            },
        }
        if left > 1 {
            ll_dec.advance(br);
            ml_dec.advance(br);
            of_dec.advance(br);
        }
        if br.bits_remaining() < 0 {
            return Err(DecodeError::NotEnoughSequenceBytes);
        }
        left = left - 1;
    }
    let remaining = br.bits_remaining();
    if remaining > 0 {
        Err(DecodeError::ExtraBits { bits: remaining as i64 })
    } else {
        Ok(())
    }
}

} // verus!
