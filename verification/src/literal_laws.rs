//! What a literals section means: its header, its Huffman codes, and its streams.
use crate::decode;
use crate::decode::DecState;
use crate::error::DecodeError;
use crate::huffman;
use crate::huffman::HufTab;
use crate::literals;
use vstd::prelude::*;

verus! {

// ---------------------------------------------------------------------------
// Plain literals
// ---------------------------------------------------------------------------

/// `head` is the header of a section of plain literals, of type 0 or 1: the number of literals
/// stands in five bits of one byte, in twelve bits of two, or in twenty bits of three.
pub open spec fn plain_header(head: Seq<u8>, ty: int, n: int) -> bool {
    if head.len() == 1 {
        head[0] % 8 == ty && n == head[0] / 8
    } else if head.len() == 2 {
        head[0] % 16 == 4 + ty && n == head[0] / 16 + 16 * head[1]
    } else {
        &&& head.len() == 3
        &&& head[0] % 16 == 12 + ty
        &&& n == head[0] / 16 + 16 * head[1] + 4096 * head[2]
    }
}

/// A header of plain literals is read: it has no compressed size and no streams.
pub proof fn lemma_plain_header(head: Seq<u8>, ty: int, n: int, rest: Seq<u8>)
    requires
        ty == 0 || ty == 1,
        plain_header(head, ty, n),
    ensures
        literals::literals_header(head + rest) matches Ok((section, len)) && {
            &&& len == head.len()
            &&& section.regenerated_size == n
            &&& section.compressed_size is None
            &&& section.num_streams is None
            &&& ty == 0 ==> section.ls_type is Raw
            &&& ty == 1 ==> section.ls_type is RLE
        },
{
    reveal(literals::literals_header);
    reveal(literals::le_prefix);
    let src = head + rest;
    let b = head[0] as int;
    assert(src[0] == head[0]);
    if head.len() >= 2 {
        assert(src[1] == head[1]);
    }
    if head.len() >= 3 {
        assert(src[2] == head[2]);
    }
}

/// Type 0: the literals follow as they are.
pub proof fn lemma_raw_literals(
    st: DecState,
    head: Seq<u8>,
    lits: Seq<u8>,
    rest: Seq<u8>,
)
    requires
        plain_header(head, 0, lits.len() as int),
    ensures
        decode::compressed_block(st, head + lits + rest) == decode::block_sequences(
            st,
            lits,
            rest,
        ),
{
    reveal(decode::compressed_block);
    reveal(literals::section_literals);
    let src = head + lits + rest;
    assert(src =~= head + (lits + rest));
    lemma_plain_header(head, 0, lits.len() as int, lits + rest);
    assert(src.skip(head.len() as int) =~= lits + rest);
    assert((lits + rest).take(lits.len() as int) =~= lits);
    assert((lits + rest).skip(lits.len() as int) =~= rest);
    assert(DecState { huf: st.huf, ..st } == st);
}

/// Type 1: one byte follows, and the literals are copies of it.
pub proof fn lemma_repeated_literals(
    st: DecState,
    head: Seq<u8>,
    x: u8,
    lits: Seq<u8>,
    rest: Seq<u8>,
)
    requires
        plain_header(head, 1, lits.len() as int),
        forall|i: int| 0 <= i < lits.len() ==> #[trigger] lits[i] == x,
    ensures
        decode::compressed_block(st, head + seq![x] + rest) == decode::block_sequences(
            st,
            lits,
            rest,
        ),
{
    reveal(decode::compressed_block);
    reveal(literals::section_literals);
    let src = head + seq![x] + rest;
    assert(src =~= head + (seq![x] + rest));
    lemma_plain_header(head, 1, lits.len() as int, seq![x] + rest);
    assert(src.skip(head.len() as int) =~= seq![x] + rest);
    assert((seq![x] + rest).take(1) =~= seq![x]);
    assert((seq![x] + rest).skip(1) =~= rest);
    assert(lits =~= Seq::new(lits.len(), |i: int| seq![x][0]));
    assert(DecState { huf: st.huf, ..st } == st);
}

/// A section that ends before its literals do is refused.
pub proof fn lemma_plain_cut(st: DecState, head: Seq<u8>, ty: int, n: int, rest: Seq<u8>)
    requires
        ty == 0 || ty == 1,
        plain_header(head, ty, n),
        rest.len() < (if ty == 0 {
            n
        } else {
            1
        }),
    ensures
        decode::compressed_block(st, head + rest) == Err::<DecState, DecodeError>(
            DecodeError::MalformedSectionHeader {
                expected: (if ty == 0 {
                    n
                } else {
                    1
                }) as usize,
                have: rest.len() as usize,
            },
        ),
{
    reveal(decode::compressed_block);
    lemma_plain_header(head, ty, n, rest);
    assert((head + rest).skip(head.len() as int) =~= rest);
}

// ---------------------------------------------------------------------------
// Coded literals
// ---------------------------------------------------------------------------

/// `head` is the header of a section of Huffman-coded literals, of type 2 or 3: behind the
/// format stand the number of literals and the number of bytes, in ten bits each, in fourteen
/// or in eighteen.  Format 0 has one stream, the others four.
pub open spec fn coded_header(head: Seq<u8>, ty: int, regen: int, comp: int, streams: int) -> bool {
    let low = head[0] / 16 + 16 * head[1] + 4096 * head[2];
    let format = (head[0] / 4) % 4;
    &&& head[0] % 4 == ty
    &&& streams == if format == 0 {
        1int
    } else {
        4
    }
    &&& if format <= 1 {
        head.len() == 3 && low == regen + 1024 * comp && 0 <= regen < 1024
    } else if format == 2 {
        head.len() == 4 && low + 1048576 * head[3] == regen + 16384 * comp && 0 <= regen < 16384
    } else {
        head.len() == 5 && low + 1048576 * head[3] + 268435456 * head[4] == regen + 262144 * comp
            && 0 <= regen < 262144
    }
}

/// The literals of one or four streams.  In front of four stand the lengths of the first three,
/// in two bytes each, the low one first; each of the four has to end with a whole code.
pub open spec fn streams_of(t: HufTab, streams: int, src: Seq<u8>) -> Result<
    Seq<u8>,
    DecodeError,
> {
    if streams == 1 {
        match huffman::huf_stream(t, src, Seq::empty()) {
            Err(e) => Err(e),
            Ok((lits, _)) => Ok(lits),
        }
    } else if src.len() < 6 {
        Err(DecodeError::JumpTableTooShort { have: src.len() as usize })
    } else {
        let a = 6 + src[0] + 256 * src[1];
        let b = a + src[2] + 256 * src[3];
        let c = b + src[4] + 256 * src[5];
        if src.len() < c {
            Err(
                DecodeError::LiteralStreamsTooShort {
                    have: (src.len() - 6) as usize,
                    need: (c - 6) as usize,
                },
            )
        } else {
            let first = literals::exact_stream(t, src.subrange(6, a), Seq::empty());
            let second = literals::exact_stream(t, src.subrange(a, b), first->Ok_0);
            let third = literals::exact_stream(t, src.subrange(b, c), second->Ok_0);
            if first is Err {
                first
            } else if second is Err {
                second
            } else if third is Err {
                third
            } else {
                literals::exact_stream(
                    t,
                    src.subrange(c, src.len() as int),
                    third->Ok_0,
                )
            }
        }
    }
}

/// What comes of a block whose literals were read with the table `t`: as many are needed as
/// the header says.
pub open spec fn with_literals(
    st: DecState,
    t: HufTab,
    read: Result<Seq<u8>, DecodeError>,
    regen: int,
    rest: Seq<u8>,
) -> Result<DecState, DecodeError> {
    match read {
        Err(e) => Err(e),
        Ok(lits) => if lits.len() != regen {
            Err(
                DecodeError::LiteralCountMismatch {
                    decoded: lits.len() as usize,
                    expected: regen as u32,
                },
            )
        } else {
            decode::block_sequences(
                DecState { huf: t, fse: st.fse, hist: st.hist, out: st.out },
                lits,
                rest,
            )
        },
    }
}

/// A header of Huffman-coded literals is read.
pub proof fn lemma_coded_header(
    head: Seq<u8>,
    ty: int,
    regen: int,
    comp: int,
    streams: int,
    rest: Seq<u8>,
)
    requires
        ty == 2 || ty == 3,
        coded_header(head, ty, regen, comp, streams),
        comp >= 0,
    ensures
        literals::literals_header(head + rest) matches Ok((section, len)) && {
            &&& len == head.len()
            &&& section.regenerated_size == regen
            &&& section.compressed_size == Some(comp as u32)
            &&& section.num_streams == Some(streams as u8)
            &&& comp <= u32::MAX
            &&& ty == 2 ==> section.ls_type is Compressed
            &&& ty == 3 ==> section.ls_type is Treeless
        },
{
    reveal(literals::literals_header);
    reveal(literals::le_prefix);
    let src = head + rest;
    assert(src[0] == head[0]);
    assert(src[1] == head[1]);
    assert(src[2] == head[2]);
    if head.len() >= 4 {
        assert(src[3] == head[3]);
    }
    if head.len() >= 5 {
        assert(src[4] == head[4]);
    }
    let n = head.len();
    let v = literals::le_prefix(src, n);
    let low = head[0] / 16 + 16 * head[1] + 4096 * head[2];
    let format = (head[0] / 4) % 4;
    if format <= 1 {
        assert(v == head[0] + 256 * head[1] + 65536 * head[2]);
        assert(v / 16 == low);
    } else if format == 2 {
        assert(v == head[0] + 256 * head[1] + 65536 * head[2] + 16777216 * head[3]);
        assert(v / 16 == low + 1048576 * head[3]);
    } else {
        assert(v == head[0] + 256 * head[1] + 65536 * head[2] + 16777216 * head[3] + 4294967296
            * head[4]);
        assert(v / 16 == low + 1048576 * head[3] + 268435456 * head[4]);
    }
}

proof fn lemma_streams(t: HufTab, streams: int, src: Seq<u8>)
    requires
        streams == 1 || streams == 4,
    ensures
        streams == 1 ==> (match huffman::huf_stream(t, src, Seq::empty()) {
            Err(e) => Err(e),
            Ok((out, _)) => Ok(out),
        }) == streams_of(t, streams, src),
        streams == 4 ==> literals::four_streams(t, src) == streams_of(t, streams, src),
{
    if streams == 4 && src.len() >= 6 {
        let j1 = src[0] + 256 * src[1];
        let j2 = j1 + src[2] + 256 * src[3];
        let j3 = j2 + src[4] + 256 * src[5];
        let body = src.skip(6);
        if body.len() >= j3 {
            assert(body.subrange(0, j1) =~= src.subrange(6, 6 + j1));
            assert(body.subrange(j1, j2) =~= src.subrange(6 + j1, 6 + j2));
            assert(body.subrange(j2, j3) =~= src.subrange(6 + j2, 6 + j3));
            assert(body.subrange(j3, body.len() as int) =~= src.subrange(
                6 + j3,
                src.len() as int,
            ));
        }
    }
}

proof fn lemma_section_parts(head: Seq<u8>, content: Seq<u8>, rest: Seq<u8>)
    ensures
        head + content + rest == head + (content + rest),
        (head + content + rest).skip(head.len() as int) == content + rest,
        (content + rest).take(content.len() as int) == content,
        (content + rest).skip(content.len() as int) == rest,
{
    assert(head + content + rest =~= head + (content + rest));
    assert((head + content + rest).skip(head.len() as int) =~= content + rest);
    assert((content + rest).take(content.len() as int) =~= content);
    assert((content + rest).skip(content.len() as int) =~= rest);
}

/// What comes of a block whose literals section has the content `content`.
proof fn lemma_section(
    st: DecState,
    head: Seq<u8>,
    ty: int,
    regen: int,
    streams: int,
    content: Seq<u8>,
    rest: Seq<u8>,
) -> (section: literals::LiteralsSection)
    requires
        ty == 2 || ty == 3,
        coded_header(head, ty, regen, content.len() as int, streams),
    ensures
        section.regenerated_size == regen,
        section.num_streams == Some(streams as u8),
        ty == 2 ==> section.ls_type is Compressed,
        ty == 3 ==> section.ls_type is Treeless,
        decode::compressed_block(st, head + content + rest) == match literals::huffman_literals(
            section,
            st.huf,
            content,
        ) {
            Err(e) => Err(e),
            Ok((lits, huf)) => decode::block_sequences(
                DecState { huf, fse: st.fse, hist: st.hist, out: st.out },
                lits,
                rest,
            ),
        },
{
    reveal(decode::compressed_block);
    reveal(literals::section_literals);
    lemma_section_parts(head, content, rest);
    lemma_coded_header(head, ty, regen, content.len() as int, streams, content + rest);
    literals::literals_header(head + (content + rest))->Ok_0.0
}

proof fn lemma_coded(
    st: DecState,
    head: Seq<u8>,
    ty: int,
    regen: int,
    streams: int,
    t: HufTab,
    tree: Seq<u8>,
    coded: Seq<u8>,
    rest: Seq<u8>,
)
    requires
        ty == 2 || ty == 3,
        coded_header(head, ty, regen, (tree.len() + coded.len()) as int, streams),
        ty == 2 ==> (huffman::huf_weights(tree + coded) matches Ok((w, n)) && n == tree.len()
            && huffman::huf_table(w) == Ok::<HufTab, DecodeError>(t)),
        ty == 3 ==> tree.len() == 0 && t == st.huf && st.huf.max_bits > 0,
    ensures
        decode::compressed_block(st, head + tree + coded + rest) == with_literals(
            st,
            t,
            streams_of(t, streams, coded),
            regen,
            rest,
        ),
{
    let content = tree + coded;
    assert(head + tree + coded + rest =~= head + content + rest);
    let section = lemma_section(st, head, ty, regen, streams, content, rest);
    assert(content.skip(tree.len() as int) =~= coded);
    lemma_streams(t, streams, coded);
    assert(literals::section_table(section, st.huf, content) == Ok::<(HufTab, nat), DecodeError>(
        (t, tree.len()),
    ));
}

/// Type 2: a tree description, whose codes stay for the next section, and the streams.
pub proof fn lemma_tree_literals(
    st: DecState,
    head: Seq<u8>,
    regen: int,
    streams: int,
    w: Seq<u8>,
    t: HufTab,
    tree: Seq<u8>,
    coded: Seq<u8>,
    rest: Seq<u8>,
)
    requires
        coded_header(head, 2, regen, (tree.len() + coded.len()) as int, streams),
        huffman::huf_weights(tree + coded) == Ok::<(Seq<u8>, nat), DecodeError>((w, tree.len())),
        huffman::huf_table(w) == Ok::<HufTab, DecodeError>(t),
    ensures
        decode::compressed_block(st, head + tree + coded + rest) == with_literals(
            st,
            t,
            streams_of(t, streams, coded),
            regen,
            rest,
        ),
{
    lemma_coded(st, head, 2, regen, streams, t, tree, coded, rest);
}

/// Type 3: the streams alone, with the codes of the section before; without such codes it is
/// refused.
pub proof fn lemma_treeless_literals(
    st: DecState,
    head: Seq<u8>,
    regen: int,
    streams: int,
    coded: Seq<u8>,
    rest: Seq<u8>,
)
    requires
        coded_header(head, 3, regen, coded.len() as int, streams),
    ensures
        decode::compressed_block(st, head + coded + rest) == if st.huf.max_bits == 0 {
            Err(DecodeError::UninitializedHuffmanTable)
        } else {
            with_literals(st, st.huf, streams_of(st.huf, streams, coded), regen, rest)
        },
{
    let none = Seq::<u8>::empty();
    assert(head + none + coded + rest =~= head + coded + rest);
    if st.huf.max_bits > 0 {
        lemma_coded(st, head, 3, regen, streams, st.huf, none, coded, rest);
    } else {
        let section = lemma_section(st, head, 3, regen, streams, coded, rest);
    }
}

/// Codes that stay: a section without a tree is what it is with the tree of the section before
/// written out again.
pub proof fn lemma_treeless_is_tree_again(
    st: DecState,
    head2: Seq<u8>,
    head3: Seq<u8>,
    regen: int,
    streams: int,
    w: Seq<u8>,
    tree: Seq<u8>,
    coded: Seq<u8>,
    rest: Seq<u8>,
)
    requires
        coded_header(head2, 2, regen, (tree.len() + coded.len()) as int, streams),
        coded_header(head3, 3, regen, coded.len() as int, streams),
        huffman::huf_weights(tree + coded) == Ok::<(Seq<u8>, nat), DecodeError>((w, tree.len())),
        w.len() <= 257,
        huffman::huf_table(w) == Ok::<HufTab, DecodeError>(st.huf),
    ensures
        decode::compressed_block(st, head3 + coded + rest) == decode::compressed_block(
            st,
            head2 + tree + coded + rest,
        ),
{
    huffman::lemma_huf_table(w);
    lemma_treeless_literals(st, head3, regen, streams, coded, rest);
    lemma_tree_literals(st, head2, regen, streams, w, st.huf, tree, coded, rest);
}

/// A section of Huffman-coded literals that ends before its content does is refused.
pub proof fn lemma_coded_cut(
    st: DecState,
    head: Seq<u8>,
    ty: int,
    regen: int,
    comp: int,
    streams: int,
    rest: Seq<u8>,
)
    requires
        ty == 2 || ty == 3,
        coded_header(head, ty, regen, comp, streams),
        rest.len() < comp,
    ensures
        decode::compressed_block(st, head + rest) == Err::<DecState, DecodeError>(
            DecodeError::MalformedSectionHeader {
                expected: comp as usize,
                have: rest.len() as usize,
            },
        ),
{
    reveal(decode::compressed_block);
    lemma_coded_header(head, ty, regen, comp, streams, rest);
    assert((head + rest).skip(head.len() as int) =~= rest);
}

/// A block that ends inside the header of its literals is refused.
pub proof fn lemma_literals_header_cut(st: DecState, src: Seq<u8>, need: u8)
    requires
        src.len() > 0,
        src.len() < need,
        need == (if src[0] % 4 < 2 {
            if src[0] % 16 == 4 || src[0] % 16 == 5 {
                2int
            } else if src[0] % 16 == 12 || src[0] % 16 == 13 {
                3
            } else {
                1
            }
        } else if src[0] % 16 < 8 {
            3
        } else if src[0] % 16 < 12 {
            4
        } else {
            5
        }),
    ensures
        decode::compressed_block(st, src) == Err::<DecState, DecodeError>(
            DecodeError::LiteralsHeaderTooShort { have: src.len() as usize, need },
        ),
{
    reveal(decode::compressed_block);
    reveal(literals::literals_header);
}

/// A block without bytes is refused.
pub proof fn lemma_no_content(st: DecState)
    ensures
        decode::compressed_block(st, Seq::empty()) == Err::<DecState, DecodeError>(
            DecodeError::NotEnoughBits { wanted: 2, left: 0 },
        ),
{
    reveal(decode::compressed_block);
    reveal(literals::literals_header);
}

/// A tree description that is refused makes the block so.
pub proof fn lemma_bad_tree(
    st: DecState,
    head: Seq<u8>,
    regen: int,
    streams: int,
    content: Seq<u8>,
    rest: Seq<u8>,
    e: DecodeError,
)
    requires
        coded_header(head, 2, regen, content.len() as int, streams),
        huffman::huf_weights(content) == Err::<(Seq<u8>, nat), DecodeError>(e) || (
        huffman::huf_weights(content) matches Ok((w, _)) && huffman::huf_table(w) == Err::<
            HufTab,
            DecodeError,
        >(e)),
    ensures
        decode::compressed_block(st, head + content + rest) == Err::<DecState, DecodeError>(e),
{
    let section = lemma_section(st, head, 2, regen, streams, content, rest);
}

} // verus!
