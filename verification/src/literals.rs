//! Decoding of literals sections.
use crate::bitreader;
use crate::error::DecodeError;
use crate::huffman;
use crate::huffman::{decode_stream, HufTab, HuffmanTable};
use vstd::prelude::*;

verus! {

#[derive(Debug, Clone, Copy, PartialEq, Eq, Structural)]
pub enum LiteralsSectionType {
    Raw,
    RLE,
    Compressed,
    Treeless,
}

/// A literals section header.
#[derive(Debug, Clone, Copy)]
pub struct LiteralsSection {
    pub regenerated_size: u32,
    pub compressed_size: Option<u32>,
    pub num_streams: Option<u8>,
    pub ls_type: LiteralsSectionType,
}

/// The section type in the two low bits of the first header byte.
pub open spec fn section_type_of(b: int) -> LiteralsSectionType {
    if b % 4 == 0 {
        LiteralsSectionType::Raw
    } else if b % 4 == 1 {
        LiteralsSectionType::RLE
    } else if b % 4 == 2 {
        LiteralsSectionType::Compressed
    } else {
        LiteralsSectionType::Treeless
    }
}

/// The header length that the first header byte announces.
pub open spec fn header_len_of(b: int) -> nat {
    let format = (b / 4) % 4;
    if b % 4 <= 1 {
        if format == 1 {
            2
        } else if format == 3 {
            3
        } else {
            1
        }
    } else {
        if format <= 1 {
            3
        } else if format == 2 {
            4
        } else {
            5
        }
    }
}

/// The little-endian number in the first `n` bytes, for `n` up to 5.
#[verifier::opaque]
pub open spec fn le_prefix(s: Seq<u8>, n: nat) -> nat {
    (if n >= 1 {
        s[0] as nat
    } else {
        0
    }) + (if n >= 2 {
        256 * s[1] as nat
    } else {
        0
    }) + (if n >= 3 {
        65536 * s[2] as nat
    } else {
        0
    }) + (if n >= 4 {
        16777216 * s[3] as nat
    } else {
        0
    }) + (if n >= 5 {
        4294967296 * s[4] as nat
    } else {
        0
    })
}

/// The header at the start of `raw` and its length.
#[verifier::opaque]
pub open spec fn literals_header(raw: Seq<u8>) -> Result<(LiteralsSection, nat), DecodeError> {
    if raw.len() == 0 {
        Err(DecodeError::NotEnoughBits { wanted: 2, left: 0 })
    } else {
        let b = raw[0] as int;
        let n = header_len_of(b);
        let format = (b / 4) % 4;
        if raw.len() < n {
            Err(DecodeError::LiteralsHeaderTooShort { have: raw.len() as usize, need: n as u8 })
        } else {
            let v = le_prefix(raw, n);
            let ty = section_type_of(b);
            if b % 4 <= 1 {
                let size = if n == 1 {
                    v / 8
                } else {
                    v / 16
                };
                Ok(
                    (
                        LiteralsSection {
                            regenerated_size: size as u32,
                            compressed_size: None,
                            num_streams: None,
                            ls_type: ty,
                        },
                        n,
                    ),
                )
            } else {
                let unit: nat = if n == 3 {
                    1024
                } else if n == 4 {
                    16384
                } else {
                    262144
                };
                Ok(
                    (
                        LiteralsSection {
                            regenerated_size: ((v / 16) % unit) as u32,
                            compressed_size: Some((v / 16 / unit) as u32),
                            num_streams: Some(
                                if format == 0 {
                                    1u8
                                } else {
                                    4u8
                                },
                            ),
                            ls_type: ty,
                        },
                        n,
                    ),
                )
            }
        }
    }
}

impl LiteralsSection {
    /// A header as `literals_header` gives it.
    pub open spec fn wf(&self) -> bool {
        &&& self.regenerated_size < 0x10_0000
        &&& (self.ls_type is Raw || self.ls_type is RLE) == (self.compressed_size is None)
        &&& self.compressed_size matches Some(n) ==> n < 0x4_0000
        &&& self.compressed_size is Some ==> self.num_streams == Some(1u8) || self.num_streams
            == Some(4u8)
    }

    /// The header read over an earlier one: sections without streams leave the number of
    /// streams as it was.
    pub open spec fn read_over(self, before: LiteralsSection) -> LiteralsSection {
        if self.num_streams is None {
            LiteralsSection { num_streams: before.num_streams, ..self }
        } else {
            self
        }
    }

    /// The bytes of the section after its header.
    pub open spec fn content_len(&self) -> nat {
        match self.compressed_size {
            Some(n) => n as nat,
            None => if self.ls_type is RLE {
                1
            } else {
                self.regenerated_size as nat
            },
        }
    }

    pub fn new() -> (s: LiteralsSection)
        ensures
            s == (LiteralsSection {
                regenerated_size: 0,
                compressed_size: None,
                num_streams: None,
                ls_type: LiteralsSectionType::Raw,
            }),
    {
        LiteralsSection {
            regenerated_size: 0,
            compressed_size: None,
            num_streams: None,
            ls_type: LiteralsSectionType::Raw,
        }
    }

    pub fn section_type(raw: u8) -> (t: LiteralsSectionType)
        ensures
            t == section_type_of(raw as int),
    {
        let t = raw % 4;
        if t == 0 {
            LiteralsSectionType::Raw
        } else if t == 1 {
            LiteralsSectionType::RLE
        } else if t == 2 {
            LiteralsSectionType::Compressed
        } else {
            LiteralsSectionType::Treeless
        }
    }

    pub fn header_bytes_needed(&self, first_byte: u8) -> (n: u8)
        ensures
            n == header_len_of(first_byte as int),
            1 <= n <= 5,
    {
        let size_format = (first_byte / 4) % 4;
        match Self::section_type(first_byte) {
            LiteralsSectionType::RLE | LiteralsSectionType::Raw => if size_format == 1 {
                2
            } else if size_format == 3 {
                3
            } else {
                1
            },
            LiteralsSectionType::Compressed | LiteralsSectionType::Treeless => if size_format <= 1 {
                3
            } else if size_format == 2 {
                4
            } else {
                5
            },
        }
    }

    /// Reads the header at the start of `raw`; returns its length.
    pub fn parse_from_header(&mut self, raw: &[u8]) -> (r: Result<u8, DecodeError>)
        ensures
            match r {
                Ok(n) => {
                    &&& literals_header(raw@) matches Ok((section, len))
                    &&& n == len
                    &&& *final(self) == section.read_over(*old(self))
                    &&& final(self).wf()
                    &&& 1 <= n <= 5
                    &&& n <= raw@.len()
                },
                Err(e) => {
                    &&& literals_header(raw@) == Err::<(LiteralsSection, nat), DecodeError>(e)
                    &&& *final(self) == if raw@.len() == 0 {
                        *old(self)
                    } else {
                        LiteralsSection { ls_type: section_type_of(raw@[0] as int), ..*old(self) }
                    }
                },
            },
    {
        reveal(literals_header);
        if raw.len() == 0 {
            return Err(DecodeError::NotEnoughBits { wanted: 2, left: 0 });
        }
        let first = raw[0];
        self.ls_type = Self::section_type(first);
        let size_format = (first / 4) % 4;
        let byte_needed = self.header_bytes_needed(first);
        if raw.len() < byte_needed as usize {
            return Err(
                DecodeError::LiteralsHeaderTooShort { have: raw.len(), need: byte_needed },
            );
        }
        let mut v: u64 = first as u64;
        if byte_needed >= 2 {
            v = v + 256 * raw[1] as u64;
        }
        if byte_needed >= 3 {
            v = v + 65536 * raw[2] as u64;
        }
        if byte_needed >= 4 {
            v = v + 16777216 * raw[3] as u64;
        }
        if byte_needed >= 5 {
            v = v + 4294967296 * raw[4] as u64;
        }
        assert(v == le_prefix(raw@, byte_needed as nat) && v < 0x100_0000_0000) by {
            reveal(le_prefix);
        }
        match self.ls_type {
            LiteralsSectionType::RLE | LiteralsSectionType::Raw => {
                self.compressed_size = None;
                if byte_needed == 1 {
                    self.regenerated_size = (v / 8) as u32;
                } else {
                    self.regenerated_size = (v / 16) as u32;
                }
            },
            LiteralsSectionType::Compressed | LiteralsSectionType::Treeless => {
                if size_format == 0 {
                    self.num_streams = Some(1);
                } else {
                    self.num_streams = Some(4);
                }
                let unit: u64 = if byte_needed == 3 {
                    1024
                } else if byte_needed == 4 {
                    16384
                } else {
                    262144
                };
                self.regenerated_size = ((v / 16) % unit) as u32;
                self.compressed_size = Some((v / 16 / unit) as u32);
            },
        }
        Ok(byte_needed)
    }
}

// ---------------------------------------------------------------------------
// Section contents
// ---------------------------------------------------------------------------

/// One of the four streams of a section: every bit has to belong to a code.
#[verifier::opaque]
pub open spec fn exact_stream(t: HufTab, stream: Seq<u8>, acc: Seq<u8>) -> Result<
    Seq<u8>,
    DecodeError,
> {
    match huffman::huf_stream(t, stream, acc) {
        Err(e) => Err(e),
        Ok((out, left)) => if left != 0 {
            Err(
                DecodeError::LiteralStreamMismatch {
                    remaining: (left - t.max_bits) as i64,
                    expected: (-(t.max_bits as int)) as i64,
                },
            )
        } else {
            Ok(out)
        },
    }
}

/// Four streams, one after the other, behind a table of the sizes of the first three.
pub open spec fn four_streams(t: HufTab, src: Seq<u8>) -> Result<Seq<u8>, DecodeError> {
    if src.len() < 6 {
        Err(DecodeError::JumpTableTooShort { have: src.len() as usize })
    } else {
        let j1 = src[0] + 256 * src[1];
        let j2 = j1 + src[2] + 256 * src[3];
        let j3 = j2 + src[4] + 256 * src[5];
        let body = src.skip(6);
        if body.len() < j3 {
            Err(
                DecodeError::LiteralStreamsTooShort {
                    have: body.len() as usize,
                    need: j3 as usize,
                },
            )
        } else {
            match exact_stream(t, body.subrange(0, j1), Seq::empty()) {
                Err(e) => Err(e),
                Ok(a) => match exact_stream(t, body.subrange(j1, j2), a) {
                    Err(e) => Err(e),
                    Ok(b) => match exact_stream(t, body.subrange(j2, j3), b) {
                        Err(e) => Err(e),
                        Ok(c) => exact_stream(t, body.subrange(j3, body.len() as int), c),
                    },
                },
            }
        }
    }
}

/// The Huffman table of a section, and the bytes of its tree description.
pub open spec fn section_table(section: LiteralsSection, huf: HufTab, src: Seq<u8>) -> Result<
    (HufTab, nat),
    DecodeError,
> {
    if section.ls_type is Compressed {
        match huffman::huf_weights(src) {
            Err(e) => Err(e),
            Ok((w, bytes)) => match huffman::huf_table(w) {
                Err(e) => Err(e),
                Ok(t) => Ok((t, bytes)),
            },
        }
    } else if huf.max_bits == 0 {
        Err(DecodeError::UninitializedHuffmanTable)
    } else {
        Ok((huf, 0))
    }
}

/// The literals of a Huffman-coded section with content `src`, and the table
/// that it leaves behind.
pub open spec fn huffman_literals(section: LiteralsSection, huf: HufTab, src: Seq<u8>) -> Result<
    (Seq<u8>, HufTab),
    DecodeError,
> {
    match section_table(section, huf, src) {
        Err(e) => Err(e),
        Ok((t, bytes)) => {
            let rest = src.skip(bytes as int);
            let lits = if section.num_streams == Some(4u8) {
                four_streams(t, rest)
            } else {
                match huffman::huf_stream(t, rest, Seq::empty()) {
                    Err(e) => Err(e),
                    Ok((out, _)) => Ok(out),
                }
            };
            match lits {
                Err(e) => Err(e),
                Ok(out) => if out.len() != section.regenerated_size {
                    Err(
                        DecodeError::LiteralCountMismatch {
                            decoded: out.len() as usize,
                            expected: section.regenerated_size,
                        },
                    )
                } else {
                    Ok((out, t))
                },
            }
        },
    }
}

/// The literals of a section with content `src`, and the Huffman table that it
/// leaves behind.
#[verifier::opaque]
pub open spec fn section_literals(section: LiteralsSection, huf: HufTab, src: Seq<u8>) -> Result<
    (Seq<u8>, HufTab),
    DecodeError,
> {
    match section.ls_type {
        LiteralsSectionType::Raw => Ok((src, huf)),
        LiteralsSectionType::RLE => Ok(
            (Seq::new(section.regenerated_size as nat, |i: int| src[0]), huf),
        ),
        _ => huffman_literals(section, huf, src),
    }
}

/// Decodes the content of a literals section, which `source` starts with; returns the bytes
/// that it takes.  Only a section with a tree description changes the table.
pub fn decode_literals(
    section: &LiteralsSection,
    table: &mut HuffmanTable,
    source: &[u8],
    target: &mut Vec<u8>,
) -> (r: Result<u32, DecodeError>)
    requires
        section.wf(),
        old(table).wf(),
        source@.len() >= section.content_len(),
        old(target)@.len() == 0,
    ensures
        final(table).fse_table.max_symbol == 255,
        !(section.ls_type is Compressed) ==> *final(table) == *old(table),
        match r {
            Ok(n) => {
                &&& final(table).wf()
                &&& section_literals(
                *section,
                old(table)@,
                source@.take(section.content_len() as int),
            ) == Ok::<
                    (Seq<u8>, HufTab),
                    DecodeError,
                >((final(target)@, final(table)@))
                &&& final(target)@.len() == section.regenerated_size
                &&& n == section.content_len()
            },
            Err(e) => section_literals(
                *section,
                old(table)@,
                source@.take(section.content_len() as int),
            ) == Err::<
                (Seq<u8>, HufTab),
                DecodeError,
            >(e),
        },
{
    reveal(section_literals);
    match section.ls_type {
        LiteralsSectionType::Raw => {
            let content = &source[0..section.regenerated_size as usize];
            target.extend_from_slice(content);
            assert(target@ =~= source@.take(section.content_len() as int));
            Ok(section.regenerated_size)
        },
        LiteralsSectionType::RLE => {
            target.resize(section.regenerated_size as usize, source[0]);
            assert(target@ =~= Seq::new(section.regenerated_size as nat, |i: int| source@[0]));
            Ok(1)
        },
        LiteralsSectionType::Compressed | LiteralsSectionType::Treeless => decompress_literals(
            section,
            table,
            source,
            target,
        ),
    }
}

/// Decodes one stream all of whose bits have to belong to codes.
fn decode_exact_stream(table: &HuffmanTable, stream: &[u8], target: &mut Vec<u8>) -> (r: Result<
    (),
    DecodeError,
>)
    requires
        table.wf(),
        table@.max_bits > 0,
        stream@.len() <= bitreader::MAX_REVERSED_SOURCE,
    ensures
        match r {
            Ok(_) => exact_stream(table@, stream@, old(target)@) == Ok::<Seq<u8>, DecodeError>(
                final(target)@,
            ),
            Err(e) => exact_stream(table@, stream@, old(target)@) == Err::<Seq<u8>, DecodeError>(e),
        },
{
    reveal(exact_stream);
    match decode_stream(table, stream, target) {
        Err(e) => Err(e),
        Ok(left) => {
            let max = table.max_num_bits as i64;
            if left != 0 {
                Err(
                    DecodeError::LiteralStreamMismatch {
                        remaining: left as i64 - max,
                        expected: -max,
                    },
                )
            } else {
                Ok(())
            }
        },
    }
}

/// Decodes a Huffman-coded section, which `source` starts with; returns the bytes that it
/// takes.  Only a section with a tree description changes the table.
pub fn decompress_literals(
    section: &LiteralsSection,
    table: &mut HuffmanTable,
    source: &[u8],
    target: &mut Vec<u8>,
) -> (r: Result<u32, DecodeError>)
    requires
        section.wf(),
        section.ls_type is Compressed || section.ls_type is Treeless,
        old(table).wf(),
        source@.len() >= section.content_len(),
        old(target)@.len() == 0,
    ensures
        final(table).fse_table.max_symbol == 255,
        !(section.ls_type is Compressed) ==> *final(table) == *old(table),
        section_table(
            *section,
            old(table)@,
            source@.take(section.content_len() as int),
        ) is Err ==> final(target)@ == old(target)@,
        match r {
            Ok(n) => {
                &&& final(table).wf()
                &&& huffman_literals(
                *section,
                old(table)@,
                source@.take(section.content_len() as int),
            ) == Ok::<
                    (Seq<u8>, HufTab),
                    DecodeError,
                >((final(target)@, final(table)@))
                &&& final(target)@.len() == section.regenerated_size
                &&& n == section.content_len()
            },
            Err(e) => huffman_literals(
                *section,
                old(table)@,
                source@.take(section.content_len() as int),
            ) == Err::<
                (Seq<u8>, HufTab),
                DecodeError,
            >(e),
        },
{
    let size = match section.compressed_size {
        Some(n) => n,
        None => 0,
    };
    let source = &source[0..size as usize];
    let mut bytes_read: u32 = 0;
    match section.ls_type {
        LiteralsSectionType::Compressed => {
            match table.build_decoder(source) {
                Ok(n) => {
                    bytes_read = n;
                },
                Err(e) => {
                    return Err(e);
                },
            }
        },
        _ => {
            if table.max_num_bits == 0 {
                return Err(DecodeError::UninitializedHuffmanTable);
            }
        },
    }
    let rest = &source[bytes_read as usize..source.len()];
    assert(rest@ =~= source@.skip(bytes_read as int));
    assert(target@ =~= Seq::<u8>::empty());
    let four = match section.num_streams {
        Some(k) => k == 4,
        None => false,
    };
    if four {
        if rest.len() < 6 {
            return Err(DecodeError::JumpTableTooShort { have: rest.len() });
        }
        let jump1 = rest[0] as usize + 256 * rest[1] as usize;
        let jump2 = jump1 + rest[2] as usize + 256 * rest[3] as usize;
        let jump3 = jump2 + rest[4] as usize + 256 * rest[5] as usize;
        let body = &rest[6..rest.len()];
        assert(body@ =~= rest@.skip(6));
        if body.len() < jump3 {
            return Err(
                DecodeError::LiteralStreamsTooShort { have: body.len(), need: jump3 },
            );
        }
        match decode_exact_stream(table, &body[0..jump1], target) {
            Ok(_) => {},
            Err(e) => {
                return Err(e);
            },
        }
        match decode_exact_stream(table, &body[jump1..jump2], target) {
            Ok(_) => {},
            Err(e) => {
                return Err(e);
            },
        }
        match decode_exact_stream(table, &body[jump2..jump3], target) {
            Ok(_) => {},
            Err(e) => {
                return Err(e);
            },
        }
        match decode_exact_stream(table, &body[jump3..body.len()], target) {
            Ok(_) => {},
            Err(e) => {
                return Err(e);
            },
        }
    } else {
        match decode_stream(table, rest, target) {
            Ok(_) => {},
            Err(e) => {
                return Err(e);
            },
        }
    }
    if target.len() != section.regenerated_size as usize {
        return Err(
            DecodeError::LiteralCountMismatch {
                decoded: target.len(),
                expected: section.regenerated_size,
            },
        );
    }
    Ok(size)
}

} // verus!
