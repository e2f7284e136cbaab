//! What a sequences section means: its header, its tables, the order of its bits, and what
//! its sequences do.
use crate::bitreader;
use crate::bitreader::RevBits;
use crate::bits;
use crate::constants::{LL_BASE, LL_BITS, ML_BASE, ML_BITS};
use crate::decode;
use crate::decode::DecState;
use crate::error::DecodeError;
use crate::execute;
use crate::execute::{OffsetHistory, Progress};
use crate::fse_decode;
use crate::fse_decode::FseTab;
use crate::sequences;
use crate::sequences::{CodeTab, CodeTabs, Sequence};
use vstd::arithmetic::div_mod::*;
use vstd::arithmetic::power2::*;
use vstd::prelude::*;

verus! {

// ---------------------------------------------------------------------------
// Table descriptions
// ---------------------------------------------------------------------------

/// `a` is the description of a code table in a mode, and `after` follows it: nothing for the
/// predefined table and for the one before, one code, or an FSE table.
#[verifier::opaque]
pub open spec fn is_description(
    mode: int,
    a: Seq<u8>,
    after: Seq<u8>,
    max_log: nat,
    max_code: nat,
) -> bool {
    if mode == 1 {
        a.len() == 1 && a[0] <= max_code
    } else if mode == 2 {
        fse_decode::fse_header(a + after, max_log, max_code) matches Ok(h) && h.bytes == a.len()
    } else {
        a.len() == 0
    }
}

/// The table that the description gives; mode 3 keeps the one before.
#[verifier::opaque]
pub open spec fn described(
    mode: int,
    before: CodeTab,
    a: Seq<u8>,
    after: Seq<u8>,
    predefined: FseTab,
    max_log: nat,
    max_code: nat,
) -> CodeTab {
    if mode == 0 {
        CodeTab { tab: predefined, rle: None }
    } else if mode == 1 {
        CodeTab { tab: FseTab { log: 0, probs: Seq::empty() }, rle: Some(a[0]) }
    } else if mode == 2 {
        let h = fse_decode::fse_header(a + after, max_log, max_code)->Ok_0;
        CodeTab { tab: FseTab { log: h.log, probs: h.probs }, rle: None }
    } else {
        before
    }
}

/// The three descriptions `a`, `b` and `c` of a section with the modes `m` and the stream
/// `s`: literal lengths in the two highest bits and first, then offsets, then match lengths.
pub open spec fn has_descriptions(
    m: u8,
    a: Seq<u8>,
    b: Seq<u8>,
    c: Seq<u8>,
    s: Seq<u8>,
) -> bool {
    &&& is_description((m / 64) as int, a, b + c + s, 9, 35)
    &&& is_description((m / 16) as int % 4, b, c + s, 8, 31)
    &&& is_description((m / 4) as int % 4, c, s, 9, 52)
}

/// The tables of such a section.
pub open spec fn tables(
    before: CodeTabs,
    m: u8,
    a: Seq<u8>,
    b: Seq<u8>,
    c: Seq<u8>,
    s: Seq<u8>,
) -> CodeTabs {
    CodeTabs {
        ll: described(
            (m / 64) as int,
            before.ll,
            a,
            b + c + s,
            sequences::ll_default(),
            9,
            35,
        ),
        of: described(
            (m / 16) as int % 4,
            before.of,
            b,
            c + s,
            sequences::of_default(),
            8,
            31,
        ),
        ml: described((m / 4) as int % 4, before.ml, c, s, sequences::ml_default(), 9, 52),
    }
}

proof fn lemma_one_table(
    mode: int,
    before: CodeTab,
    a: Seq<u8>,
    after: Seq<u8>,
    predefined: FseTab,
    max_log: nat,
    max_code: nat,
    kind: crate::error::CodeKind,
)
    requires
        0 <= mode < 4,
        is_description(mode, a, after, max_log, max_code),
    ensures
        sequences::update_tab(
            before,
            sequences::mode_of(mode),
            a + after,
            predefined,
            max_log,
            max_code,
            kind,
        ) == Ok::<(CodeTab, nat), DecodeError>(
            (described(mode, before, a, after, predefined, max_log, max_code), a.len()),
        ),
{
    reveal(sequences::update_tab);
    reveal(is_description);
    reveal(described);
    if mode == 1 {
        assert((a + after)[0] == a[0]);
    }
}

proof fn lemma_parts(a: Seq<u8>, b: Seq<u8>, c: Seq<u8>, s: Seq<u8>)
    ensures
        a + b + c + s == a + (b + c + s),
        (a + b + c + s).skip(a.len() as int) == b + (c + s),
        (a + b + c + s).skip((a.len() + b.len()) as int) == c + s,
        (a + b + c + s).skip((a.len() + b.len() + c.len()) as int) == s,
{
    let src = a + b + c + s;
    assert(src =~= a + (b + c + s));
    assert(src.skip(a.len() as int) =~= b + (c + s));
    assert(src.skip((a.len() + b.len()) as int) =~= c + s);
    assert(src.skip((a.len() + b.len() + c.len()) as int) =~= s);
}

proof fn lemma_three_tables(
    before: CodeTabs,
    m: u8,
    a: Seq<u8>,
    b: Seq<u8>,
    c: Seq<u8>,
    s: Seq<u8>,
)
    requires
        has_descriptions(m, a, b, c, s),
    ensures
        sequences::update_tabs(before, Some(m), a + b + c + s) == Ok::<
            (CodeTabs, nat),
            DecodeError,
        >((tables(before, m, a, b, c, s), a.len() + b.len() + c.len())),
{
    lemma_parts(a, b, c, s);
    lemma_one_table(
        (m / 64) as int,
        before.ll,
        a,
        b + c + s,
        sequences::ll_default(),
        9,
        35,
        crate::error::CodeKind::LiteralLength,
    );
    lemma_one_table(
        (m / 16) as int % 4,
        before.of,
        b,
        c + s,
        sequences::of_default(),
        8,
        31,
        crate::error::CodeKind::Offset,
    );
    lemma_one_table(
        (m / 4) as int % 4,
        before.ml,
        c,
        s,
        sequences::ml_default(),
        9,
        52,
        crate::error::CodeKind::MatchLength,
    );
    assert(m as int / 64 == (m / 64) as int);
    assert((m as int / 16) % 4 == (m / 16) as int % 4);
    assert((m as int / 4) % 4 == (m / 4) as int % 4);
}

#[verifier::opaque]
spec fn decoded(t: CodeTabs, num: nat, s: Seq<u8>) -> Result<
    (Seq<Sequence>, CodeTabs),
    DecodeError,
> {
    match bitreader::stream_start(s) {
        Err(e) => Err(e),
        Ok(r) => match sequences::stream_sequences(t, num, r) {
            Err(e) => Err(e),
            Ok(seqs) => Ok((seqs, t)),
        },
    }
}

proof fn lemma_decoded(
    before: CodeTabs,
    m: u8,
    num: nat,
    a: Seq<u8>,
    b: Seq<u8>,
    c: Seq<u8>,
    s: Seq<u8>,
)
    requires
        has_descriptions(m, a, b, c, s),
    ensures
        sequences::section_sequences(before, Some(m), num, a + b + c + s) == decoded(
            tables(before, m, a, b, c, s),
            num,
            s,
        ),
        sequences::section_sequences(before, Some(m), num, a + b + c + s) matches Ok((_, t))
            ==> t == tables(before, m, a, b, c, s),
{
    reveal(sequences::section_sequences);
    reveal(decoded);
    lemma_parts(a, b, c, s);
    lemma_three_tables(before, m, a, b, c, s);
}

/// What a section with three table descriptions means.  The tables stay for the next
/// section.
pub proof fn lemma_section(
    before: CodeTabs,
    m: u8,
    num: nat,
    a: Seq<u8>,
    b: Seq<u8>,
    c: Seq<u8>,
    s: Seq<u8>,
)
    requires
        has_descriptions(m, a, b, c, s),
    ensures
        ({
            let t = tables(before, m, a, b, c, s);
            sequences::section_sequences(before, Some(m), num, a + b + c + s) == match
            bitreader::stream_start(s) {
                Err(e) => Err(e),
                Ok(r) => match sequences::stream_sequences(t, num, r) {
                    Err(e) => Err(e),
                    Ok(seqs) => Ok((seqs, t)),
                },
            }
        }),
{
    reveal(decoded);
    lemma_decoded(before, m, num, a, b, c, s);
}

/// `a` is no description of a code table in a mode: a code that is missing or too large, or an
/// FSE table that is refused.
pub open spec fn no_description(
    mode: int,
    a: Seq<u8>,
    max_log: nat,
    max_code: nat,
    kind: crate::error::CodeKind,
    e: DecodeError,
) -> bool {
    if mode == 1 {
        if a.len() == 0 {
            e == (DecodeError::MissingRleByte { kind })
        } else {
            a[0] > max_code && e == (DecodeError::RleCodeTooLarge { kind, code: a[0] })
        }
    } else {
        &&& mode == 2
        &&& fse_decode::fse_header(a, max_log, max_code) == Err::<
            fse_decode::FseHeader,
            DecodeError,
        >(e)
    }
}

/// A section is refused for the first of its descriptions that is none.
pub proof fn lemma_bad_description(
    before: CodeTabs,
    m: u8,
    num: nat,
    a: Seq<u8>,
    b: Seq<u8>,
    rest: Seq<u8>,
    e: DecodeError,
)
    ensures
        no_description(
            (m / 64) as int,
            rest,
            9,
            35,
            crate::error::CodeKind::LiteralLength,
            e,
        ) ==> sequences::section_sequences(before, Some(m), num, rest) == Err::<
            (Seq<Sequence>, CodeTabs),
            DecodeError,
        >(e),
        is_description((m / 64) as int, a, rest, 9, 35) && no_description(
            (m / 16) as int % 4,
            rest,
            8,
            31,
            crate::error::CodeKind::Offset,
            e,
        ) ==> sequences::section_sequences(before, Some(m), num, a + rest) == Err::<
            (Seq<Sequence>, CodeTabs),
            DecodeError,
        >(e),
        is_description((m / 64) as int, a, b + rest, 9, 35) && is_description(
            (m / 16) as int % 4,
            b,
            rest,
            8,
            31,
        ) && no_description(
            (m / 4) as int % 4,
            rest,
            9,
            52,
            crate::error::CodeKind::MatchLength,
            e,
        ) ==> sequences::section_sequences(before, Some(m), num, a + (b + rest)) == Err::<
            (Seq<Sequence>, CodeTabs),
            DecodeError,
        >(e),
{
    reveal(sequences::section_sequences);
    reveal(sequences::update_tab);
    let ll = (m / 64) as int;
    let of = (m / 16) as int % 4;
    assert(m as int / 64 == ll);
    assert((m as int / 16) % 4 == of);
    assert((m as int / 4) % 4 == (m / 4) as int % 4);
    assert((a + rest).skip(a.len() as int) =~= rest);
    assert((a + (b + rest)).skip(a.len() as int) =~= b + rest);
    assert((a + (b + rest)).skip((a.len() + b.len()) as int) =~= rest);
    if is_description(ll, a, rest, 9, 35) {
        lemma_one_table(
            ll,
            before.ll,
            a,
            rest,
            sequences::ll_default(),
            9,
            35,
            crate::error::CodeKind::LiteralLength,
        );
    }
    if is_description(ll, a, b + rest, 9, 35) && is_description(of, b, rest, 8, 31) {
        lemma_one_table(
            ll,
            before.ll,
            a,
            b + rest,
            sequences::ll_default(),
            9,
            35,
            crate::error::CodeKind::LiteralLength,
        );
        lemma_one_table(
            of,
            before.of,
            b,
            rest,
            sequences::of_default(),
            8,
            31,
            crate::error::CodeKind::Offset,
        );
    }
}

// ---------------------------------------------------------------------------
// Descriptions before other bytes
// ---------------------------------------------------------------------------

proof fn lemma_same_low_bits(d: Seq<u8>, r1: Seq<u8>, r2: Seq<u8>, idx: nat, n: nat)
    requires
        idx + n <= 8 * d.len(),
    ensures
        bitreader::forward_value(d + r1, idx as int, n as int) == bitreader::forward_value(
            d + r2,
            idx as int,
            n as int,
        ),
{
    let x = bits::byte_bits(d + r1).subrange(idx as int, idx as int + n);
    let y = bits::byte_bits(d + r2).subrange(idx as int, idx as int + n);
    bits::lemma_byte_bits_concat(d, r1);
    bits::lemma_byte_bits_concat(d, r2);
    assert(x =~= y);
}

proof fn lemma_low_part(src: Seq<u8>, idx: nat, w: nat)
    requires
        w >= 1,
        idx + w <= 8 * src.len(),
    ensures
        bitreader::forward_value(src, idx as int, w as int) % pow2((w - 1) as nat)
            == bitreader::forward_value(src, idx as int, w - 1),
{
    let all = bits::byte_bits(src);
    let x = all.subrange(idx as int, idx as int + w);
    let low = all.subrange(idx as int, idx as int + w - 1);
    let top = seq![x[w - 1]];
    assert(x =~= low + top);
    bits::lemma_val_concat(low, top);
    bits::lemma_val_bound(low);
    let p = pow2((w - 1) as nat);
    lemma_mod_multiples_vanish(bits::val(top) as int, bits::val(low) as int, p as int);
    lemma_small_mod(bits::val(low), p);
}

proof fn lemma_runs_move(d: Seq<u8>, r1: Seq<u8>, r2: Seq<u8>, idx: nat, acc: Seq<int>)
    requires
        fse_decode::read_zero_runs(d + r1, idx, acc) matches Ok((_, end)) && end <= 8 * d.len(),
    ensures
        fse_decode::read_zero_runs(d + r2, idx, acc) == fse_decode::read_zero_runs(
            d + r1,
            idx,
            acc,
        ),
    decreases 8 * (d + r1).len() - idx,
{
    fse_decode::lemma_zero_runs_advance(d + r1, idx, acc);
    let n = bitreader::forward_value(d + r1, idx as int, 2);
    let acc1 = acc + Seq::new(n, |i: int| 0int);
    if n == 3 {
        fse_decode::lemma_zero_runs_advance(d + r1, idx + 2, acc1);
        lemma_runs_move(d, r1, r2, idx + 2, acc1);
    }
    lemma_same_low_bits(d, r1, r2, idx, 2);
}

proof fn lemma_probs_move(
    d: Seq<u8>,
    r1: Seq<u8>,
    r2: Seq<u8>,
    idx: nat,
    size: nat,
    filled: nat,
    acc: Seq<int>,
)
    requires
        r2.len() > 0,
        fse_decode::read_probs(d + r1, idx, size, filled, acc) matches Ok((_, end)) && end <= 8
            * d.len(),
    ensures
        fse_decode::read_probs(d + r2, idx, size, filled, acc) == fse_decode::read_probs(
            d + r1,
            idx,
            size,
            filled,
            acc,
        ),
        fse_decode::read_probs(d + r1, idx, size, filled, acc) matches Ok((_, end)) && idx <= end,
    decreases 8 * (d + r1).len() - idx,
{
    if filled < size {
        let max = (size - filled + 1) as nat;
        let w = fse_decode::prob_width(max);
        let u1 = bitreader::forward_value(d + r1, idx as int, w as int);
        bits::lemma_val_bound(
            bits::byte_bits(d + r1).subrange(idx as int, idx as int + w),
        );
        fse_decode::lemma_prob_field(max, u1);
        let f = fse_decode::prob_field(max, u1);
        let prob = f.value - 1;
        let acc1 = acc.push(prob);
        if prob != 0 {
            lemma_probs_move(
                d,
                r1,
                r2,
                idx + f.used,
                size,
                filled + crate::fse_table::cells(prob),
                acc1,
            );
        } else {
            fse_decode::lemma_zero_runs_advance(d + r1, idx + f.used, acc1);
            let (acc2, idx2) = fse_decode::read_zero_runs(d + r1, idx + f.used, acc1)->Ok_0;
            lemma_probs_move(d, r1, r2, idx2, size, filled, acc2);
            lemma_runs_move(d, r1, r2, idx + f.used, acc1);
        }
        assert(idx + f.used <= 8 * d.len());
        let u2 = bitreader::forward_value(d + r2, idx as int, w as int);
        if f.used == w {
            lemma_same_low_bits(d, r1, r2, idx, w);
        } else {
            lemma_low_part(d + r1, idx, w);
            lemma_low_part(d + r2, idx, w);
            lemma_same_low_bits(d, r1, r2, idx, (w - 1) as nat);
        }
        assert(fse_decode::prob_field(max, u2) == f);
    }
}

proof fn lemma_description_moves(
    mode: int,
    d: Seq<u8>,
    r1: Seq<u8>,
    r2: Seq<u8>,
    x: CodeTab,
    predefined: FseTab,
    max_log: nat,
    max_code: nat,
)
    requires
        0 <= mode < 4,
        is_description(mode, d, r1, max_log, max_code),
        r2.len() > 0,
    ensures
        is_description(mode, d, r2, max_log, max_code),
        described(
            mode,
            described(mode, x, d, r1, predefined, max_log, max_code),
            d,
            r2,
            predefined,
            max_log,
            max_code,
        ) == described(mode, x, d, r1, predefined, max_log, max_code),
        described(mode, x, d, r2, predefined, max_log, max_code) == described(
            mode,
            x,
            d,
            r1,
            predefined,
            max_log,
            max_code,
        ),
{
    reveal(is_description);
    reveal(described);
    if mode == 2 {
        let h = fse_decode::fse_header(d + r1, max_log, max_code)->Ok_0;
        let (probs, end) = fse_decode::read_probs(d + r1, 4, pow2(h.log), 0, Seq::empty())->Ok_0;
        assert(end <= 8 * d.len());
        lemma_probs_move(d, r1, r2, 4, pow2(h.log), 0, Seq::empty());
        lemma_same_low_bits(d, r1, r2, 0, 4);
    }
}

// ---------------------------------------------------------------------------
// Repeated tables
// ---------------------------------------------------------------------------

proof fn lemma_modes(ll: int, of: int, ml: int, low: u8, m: u8)
    requires
        0 <= ll < 4,
        0 <= of < 4,
        0 <= ml < 4,
        low < 4,
        m == 64 * ll + 16 * of + 4 * ml + low,
    ensures
        (m / 64) as int == ll,
        (m / 16) as int % 4 == of,
        (m / 4) as int % 4 == ml,
{
}

proof fn lemma_kept_table()
    ensures
        forall|x: CodeTab, a: Seq<u8>, r: Seq<u8>, p: FseTab, l: nat, c: nat| #[trigger]
            described(3, x, a, r, p, l, c) == x,
{
    reveal(described);
}

/// Repeating the literal length table of a section is writing its description, whatever it
/// was, out again in the next section.
pub proof fn lemma_repeat_literal_lengths(
    before: CodeTabs,
    m1: u8,
    n1: nat,
    a1: Seq<u8>,
    b1: Seq<u8>,
    c1: Seq<u8>,
    s1: Seq<u8>,
    seqs1: Seq<Sequence>,
    between: CodeTabs,
    m2: u8,
    n2: nat,
    b2: Seq<u8>,
    c2: Seq<u8>,
    s2: Seq<u8>,
)
    requires
        has_descriptions(m1, a1, b1, c1, s1),
        sequences::section_sequences(before, Some(m1), n1, a1 + b1 + c1 + s1) == Ok::<
            (Seq<Sequence>, CodeTabs),
            DecodeError,
        >((seqs1, between)),
        m2 / 64 == 3,
        has_descriptions(m2, Seq::empty(), b2, c2, s2),
        s2.len() > 0,
    ensures
        sequences::section_sequences(between, Some(m2), n2, b2 + c2 + s2)
            == sequences::section_sequences(
            between,
            Some((m2 % 64 + 64 * (m1 / 64)) as u8),
            n2,
            a1 + b2 + c2 + s2,
        ),
{
    let none = Seq::<u8>::empty();
    lemma_decoded(before, m1, n1, a1, b1, c1, s1);
    assert(between == tables(before, m1, a1, b1, c1, s1));
    lemma_decoded(between, m2, n2, none, b2, c2, s2);
    assert(none + b2 + c2 + s2 =~= b2 + c2 + s2);
    let m3 = (m2 % 64 + 64 * (m1 / 64)) as u8;
    lemma_modes((m1 / 64) as int, (m2 / 16) as int % 4, (m2 / 4) as int % 4, m2 % 4, m3);
    lemma_description_moves(
        (m1 / 64) as int,
        a1,
        b1 + c1 + s1,
        b2 + c2 + s2,
        before.ll,
        sequences::ll_default(),
        9,
        35,
    );
    lemma_kept_table();
    lemma_decoded(between, m3, n2, a1, b2, c2, s2);
    assert(tables(between, m3, a1, b2, c2, s2) == tables(between, m2, none, b2, c2, s2));
}

/// Repeating the offset table of a section is writing its description, whatever it was, out
/// again in the next section.
pub proof fn lemma_repeat_offsets(
    before: CodeTabs,
    m1: u8,
    n1: nat,
    a1: Seq<u8>,
    b1: Seq<u8>,
    c1: Seq<u8>,
    s1: Seq<u8>,
    seqs1: Seq<Sequence>,
    between: CodeTabs,
    m2: u8,
    n2: nat,
    a2: Seq<u8>,
    c2: Seq<u8>,
    s2: Seq<u8>,
)
    requires
        has_descriptions(m1, a1, b1, c1, s1),
        sequences::section_sequences(before, Some(m1), n1, a1 + b1 + c1 + s1) == Ok::<
            (Seq<Sequence>, CodeTabs),
            DecodeError,
        >((seqs1, between)),
        (m2 / 16) % 4 == 3,
        has_descriptions(m2, a2, Seq::empty(), c2, s2),
        s2.len() > 0,
    ensures
        sequences::section_sequences(between, Some(m2), n2, a2 + c2 + s2)
            == sequences::section_sequences(
            between,
            Some((m2 - 48 + 16 * ((m1 / 16) % 4)) as u8),
            n2,
            a2 + b1 + c2 + s2,
        ),
{
    let none = Seq::<u8>::empty();
    lemma_decoded(before, m1, n1, a1, b1, c1, s1);
    assert(between == tables(before, m1, a1, b1, c1, s1));
    lemma_decoded(between, m2, n2, a2, none, c2, s2);
    assert(a2 + none + c2 + s2 =~= a2 + c2 + s2);
    assert(none + c2 + s2 =~= c2 + s2);
    let m3 = (m2 - 48 + 16 * ((m1 / 16) % 4)) as u8;
    lemma_modes((m2 / 64) as int, (m1 / 16) as int % 4, (m2 / 4) as int % 4, m2 % 4, m3);
    lemma_description_moves(
        (m1 / 16) as int % 4,
        b1,
        c1 + s1,
        c2 + s2,
        before.of,
        sequences::of_default(),
        8,
        31,
    );
    lemma_description_moves(
        (m2 / 64) as int,
        a2,
        none + c2 + s2,
        b1 + c2 + s2,
        between.ll,
        sequences::ll_default(),
        9,
        35,
    );
    lemma_kept_table();
    lemma_decoded(between, m3, n2, a2, b1, c2, s2);
    assert(tables(between, m3, a2, b1, c2, s2) == tables(between, m2, a2, none, c2, s2));
}

/// Repeating the match length table of a section is writing its description, whatever it
/// was, out again in the next section.
pub proof fn lemma_repeat_match_lengths(
    before: CodeTabs,
    m1: u8,
    n1: nat,
    a1: Seq<u8>,
    b1: Seq<u8>,
    c1: Seq<u8>,
    s1: Seq<u8>,
    seqs1: Seq<Sequence>,
    between: CodeTabs,
    m2: u8,
    n2: nat,
    a2: Seq<u8>,
    b2: Seq<u8>,
    s2: Seq<u8>,
)
    requires
        has_descriptions(m1, a1, b1, c1, s1),
        sequences::section_sequences(before, Some(m1), n1, a1 + b1 + c1 + s1) == Ok::<
            (Seq<Sequence>, CodeTabs),
            DecodeError,
        >((seqs1, between)),
        (m2 / 4) % 4 == 3,
        has_descriptions(m2, a2, b2, Seq::empty(), s2),
        s2.len() > 0,
    ensures
        sequences::section_sequences(between, Some(m2), n2, a2 + b2 + s2)
            == sequences::section_sequences(
            between,
            Some((m2 - 12 + 4 * ((m1 / 4) % 4)) as u8),
            n2,
            a2 + b2 + c1 + s2,
        ),
{
    let none = Seq::<u8>::empty();
    lemma_decoded(before, m1, n1, a1, b1, c1, s1);
    assert(between == tables(before, m1, a1, b1, c1, s1));
    lemma_decoded(between, m2, n2, a2, b2, none, s2);
    assert(a2 + b2 + none + s2 =~= a2 + b2 + s2);
    assert(b2 + none + s2 =~= b2 + s2);
    assert(none + s2 =~= s2);
    let m3 = (m2 - 12 + 4 * ((m1 / 4) % 4)) as u8;
    lemma_modes((m2 / 64) as int, (m2 / 16) as int % 4, (m1 / 4) as int % 4, m2 % 4, m3);
    lemma_description_moves(
        (m1 / 4) as int % 4,
        c1,
        s1,
        s2,
        before.ml,
        sequences::ml_default(),
        9,
        52,
    );
    lemma_description_moves(
        (m2 / 16) as int % 4,
        b2,
        none + s2,
        c1 + s2,
        between.of,
        sequences::of_default(),
        8,
        31,
    );
    lemma_description_moves(
        (m2 / 64) as int,
        a2,
        b2 + none + s2,
        b2 + c1 + s2,
        between.ll,
        sequences::ll_default(),
        9,
        35,
    );
    lemma_kept_table();
    lemma_decoded(between, m3, n2, a2, b2, c1, s2);
    assert(tables(between, m3, a2, b2, c1, s2) == tables(between, m2, a2, b2, none, s2));
}

// ---------------------------------------------------------------------------
// Section header
// ---------------------------------------------------------------------------

/// What comes of a block once its sequences are known.
pub open spec fn executed(
    st: DecState,
    lits: Seq<u8>,
    read: Result<(Seq<Sequence>, CodeTabs), DecodeError>,
) -> Result<DecState, DecodeError> {
    match read {
        Err(e) => Err(e),
        Ok((seqs, fse)) => match execute::run_block(seqs, lits, st.out, st.hist) {
            Err(e) => Err(e),
            Ok((out, hist)) => Ok(DecState { huf: st.huf, fse, hist, out }),
        },
    }
}

/// A section of one zero byte has no sequences: the literals are the content.
pub proof fn lemma_no_sequences(st: DecState, lits: Seq<u8>)
    ensures
        decode::block_sequences(st, lits, seq![0u8]) == Ok::<DecState, DecodeError>(
            DecState { huf: st.huf, fse: st.fse, hist: st.hist, out: st.out + lits },
        ),
{
    assert(seq![0u8].skip(1) =~= Seq::<u8>::empty());
}

/// Behind a count of zero nothing may follow.
pub proof fn lemma_bytes_behind_zero(st: DecState, lits: Seq<u8>, rest: Seq<u8>)
    requires
        rest.len() > 0,
    ensures
        decode::block_sequences(st, lits, seq![0u8] + rest) == Err::<DecState, DecodeError>(
            DecodeError::ExtraBits { bits: (8 * rest.len()) as i64 },
        ),
{
    assert((seq![0u8] + rest).skip(1) =~= rest);
}

/// One byte counts up to 127 sequences, and the modes follow.
pub proof fn lemma_count_one_byte(st: DecState, lits: Seq<u8>, n: u8, m: u8, body: Seq<u8>)
    requires
        1 <= n <= 127,
    ensures
        decode::block_sequences(st, lits, seq![n, m] + body) == executed(
            st,
            lits,
            sequences::section_sequences(st.fse, Some(m), n as nat, body),
        ),
{
    assert((seq![n, m] + body).skip(2) =~= body);
}

/// Two bytes count up to 32511: the first, less 128, is the high byte.
pub proof fn lemma_count_two_bytes(
    st: DecState,
    lits: Seq<u8>,
    x: u8,
    y: u8,
    m: u8,
    body: Seq<u8>,
)
    requires
        128 <= x <= 254,
        x > 128 || y > 0,
    ensures
        decode::block_sequences(st, lits, seq![x, y, m] + body) == executed(
            st,
            lits,
            sequences::section_sequences(
                st.fse,
                Some(m),
                ((x - 128) * 256 + y) as nat,
                body,
            ),
        ),
{
    assert((seq![x, y, m] + body).skip(3) =~= body);
}

/// The byte 255 and two bytes, the low one first, count from 32512 on.
pub proof fn lemma_count_three_bytes(
    st: DecState,
    lits: Seq<u8>,
    x: u8,
    y: u8,
    m: u8,
    body: Seq<u8>,
)
    ensures
        decode::block_sequences(st, lits, seq![255u8, x, y, m] + body) == executed(
            st,
            lits,
            sequences::section_sequences(
                st.fse,
                Some(m),
                (32512 + x + 256 * y) as nat,
                body,
            ),
        ),
{
    assert((seq![255u8, x, y, m] + body).skip(4) =~= body);
}

/// A count of zero in two bytes is a count of zero, and no modes follow.
pub proof fn lemma_zero_in_two_bytes(st: DecState, lits: Seq<u8>, rest: Seq<u8>)
    ensures
        decode::block_sequences(st, lits, seq![128u8, 0] + rest) == if rest.len() == 0 {
            Ok(DecState { huf: st.huf, fse: st.fse, hist: st.hist, out: st.out + lits })
        } else {
            Err(DecodeError::ExtraBits { bits: (8 * rest.len()) as i64 })
        },
{
    assert((seq![128u8, 0] + rest).skip(2) =~= rest);
}

/// A section that ends inside its header is refused.
pub proof fn lemma_section_header_cut(st: DecState, lits: Seq<u8>, src: Seq<u8>)
    requires
        src.len() < 4,
        src.len() == 0 || src[0] != 0,
        src.len() >= 2 ==> src[0] >= 128 && !(src[0] == 128 && src[1] == 0),
        src.len() == 3 ==> src[0] == 255,
    ensures
        decode::block_sequences(st, lits, src) == Err::<DecState, DecodeError>(
            if src.len() == 0 {
                DecodeError::SequencesHeaderEmpty
            } else {
                DecodeError::SequencesHeaderTooShort {
                    have: src.len() as usize,
                    need: if src[0] == 255 {
                        4
                    } else if src.len() == 2 {
                        3
                    } else {
                        2
                    },
                }
            },
        ),
{
}

// ---------------------------------------------------------------------------
// Order of the bits
// ---------------------------------------------------------------------------

/// The code at cell `p`.
pub open spec fn code_at(t: CodeTab, p: nat) -> int {
    if t.rle is Some {
        t.rle->0 as int
    } else {
        t.tab.symbol(p)
    }
}

/// The bits that a step from cell `p` takes: none where every code is the same.
pub open spec fn step_bits(t: CodeTab, p: nat) -> nat {
    if t.rle is Some {
        0
    } else {
        t.tab.next(p).bits
    }
}

/// The cell behind cell `p`.
pub open spec fn step_to(t: CodeTab, p: nat, r: RevBits) -> nat {
    if t.rle is Some {
        p
    } else {
        t.tab.next(p).base + r.peek(t.tab.next(p).bits)
    }
}

/// The bits that the first cell takes.
pub open spec fn first_bits(t: CodeTab) -> nat {
    if t.rle is Some {
        0
    } else {
        t.tab.log
    }
}

proof fn lemma_no_bits(r: RevBits)
    requires
        r.wf(),
    ensures
        r.skip(0) == r,
        r.peek(0) == 0,
{
    assert(r.bits.take(r.bits.len() as int) =~= r.bits);
    assert(r.bits.subrange(r.bits.len() as int, r.bits.len() as int) =~= Seq::<bool>::empty());
}

/// A stream starts with the first cells: of the literal lengths, then of the offsets, then
/// of the match lengths.
pub proof fn lemma_first_cells(t: CodeTabs, num: nat, r: RevBits)
    requires
        r.wf(),
        t.ll.rle is Some || t.ll.tab.log > 0,
        t.of.rle is Some || t.of.tab.log > 0,
        t.ml.rle is Some || t.ml.tab.log > 0,
    ensures
        ({
            let r1 = r.skip(first_bits(t.ll));
            let r2 = r1.skip(first_bits(t.of));
            sequences::stream_sequences(t, num, r) == sequences::read_sequences(
                t,
                num,
                r.peek(first_bits(t.ll)),
                r1.peek(first_bits(t.of)),
                r2.peek(first_bits(t.ml)),
                r2.skip(first_bits(t.ml)),
                Seq::empty(),
            )
        }),
{
    let r1 = r.skip(first_bits(t.ll));
    let r2 = r1.skip(first_bits(t.of));
    bitreader::lemma_skip(r, first_bits(t.ll));
    bitreader::lemma_skip(r1, first_bits(t.of));
    lemma_no_bits(r);
    lemma_no_bits(r1);
    lemma_no_bits(r2);
}

/// A table that was never described cannot be used, nor repeated.
pub proof fn lemma_no_table(t: CodeTabs, num: nat, r: RevBits)
    requires
        (t.ll.rle is None && t.ll.tab.log == 0) || (t.of.rle is None && t.of.tab.log == 0) || (
        t.ml.rle is None && t.ml.tab.log == 0),
    ensures
        sequences::stream_sequences(t, num, r) == Err::<Seq<Sequence>, DecodeError>(
            DecodeError::FseTableUninitialized,
        ),
{
}

/// A sequence: the three codes of the cells; the extra bits of the offset, of the match
/// length and of the literal length; and, but for the last sequence, the bits to the next
/// cells of the literal lengths, the match lengths and the offsets.
pub proof fn lemma_next_sequence(
    t: CodeTabs,
    n: nat,
    ll: nat,
    of: nat,
    ml: nat,
    r: RevBits,
    acc: Seq<Sequence>,
)
    requires
        n > 0,
        r.wf(),
    ensures
        ({
            let llc = code_at(t.ll, ll);
            let mlc = code_at(t.ml, ml);
            let ofc = code_at(t.of, of) as nat;
            let r1 = r.skip(ofc);
            let r2 = r1.skip(ML_BITS@[mlc] as nat);
            let r3 = r2.skip(LL_BITS@[llc] as nat);
            let more = acc.push(
                Sequence {
                    ll: (LL_BASE@[llc] + r2.peek(LL_BITS@[llc] as nat)) as u32,
                    ml: (ML_BASE@[mlc] + r1.peek(ML_BITS@[mlc] as nat)) as u32,
                    of: (pow2(ofc) + r.peek(ofc)) as u32,
                },
            );
            let r4 = r3.skip(step_bits(t.ll, ll));
            let r5 = r4.skip(step_bits(t.ml, ml));
            let r6 = r5.skip(step_bits(t.of, of));
            sequences::read_sequences(t, n, ll, of, ml, r, acc) == if n == 1 {
                if r3.remaining() < 0 {
                    Err(DecodeError::NotEnoughSequenceBytes)
                } else if r3.remaining() > 0 {
                    Err(DecodeError::ExtraBits { bits: r3.remaining() as i64 })
                } else {
                    Ok(more)
                }
            } else if r6.remaining() < 0 {
                Err(DecodeError::NotEnoughSequenceBytes)
            } else {
                sequences::read_sequences(
                    t,
                    (n - 1) as nat,
                    step_to(t.ll, ll, r3),
                    step_to(t.of, of, r5),
                    step_to(t.ml, ml, r4),
                    r6,
                    more,
                )
            }
        }),
{
    let llc = code_at(t.ll, ll);
    let mlc = code_at(t.ml, ml);
    let ofc = code_at(t.of, of) as nat;
    let r1 = r.skip(ofc);
    let r2 = r1.skip(ML_BITS@[mlc] as nat);
    let r3 = r2.skip(LL_BITS@[llc] as nat);
    let r4 = r3.skip(step_bits(t.ll, ll));
    let r5 = r4.skip(step_bits(t.ml, ml));
    bitreader::lemma_skip(r, ofc);
    bitreader::lemma_skip(r1, ML_BITS@[mlc] as nat);
    bitreader::lemma_skip(r2, LL_BITS@[llc] as nat);
    bitreader::lemma_skip(r3, step_bits(t.ll, ll));
    bitreader::lemma_skip(r4, step_bits(t.ml, ml));
    lemma_no_bits(r3);
    lemma_no_bits(r4);
    lemma_no_bits(r5);
    reveal_with_fuel(sequences::read_sequences, 2);
}

// ---------------------------------------------------------------------------
// Codes of lengths
// ---------------------------------------------------------------------------

/// The literal length codes cover all lengths from 0 to 131071, each once: the range of a code
/// starts where the one before ends, and codes below 16 are the lengths themselves.
pub proof fn lemma_literal_length_codes(c: int)
    requires
        0 <= c <= 35,
    ensures
        c <= 16 ==> LL_BASE@[c] == c,
        c < 35 ==> LL_BASE@[c] + pow2(LL_BITS@[c] as nat) == LL_BASE@[c + 1],
        c == 35 ==> LL_BASE@[c] + pow2(LL_BITS@[c] as nat) == 131072,
        c >= 25 ==> LL_BASE@[c] == pow2((c - 19) as nat),
        c < 16 ==> LL_BITS@[c] == 0,
        16 <= c < 20 ==> LL_BITS@[c] == 1,
        20 <= c < 22 ==> LL_BITS@[c] == 2,
        22 <= c < 24 ==> LL_BITS@[c] == 3,
        c == 24 ==> LL_BITS@[c] == 4,
        c >= 25 ==> LL_BITS@[c] == c - 19,
{
    crate::constants::lemma_ll_tables();
    lemma2_to64();
}

/// The match length codes cover all lengths from 3 to 131074, each once: the range of a code
/// starts where the one before ends, and codes below 32 are the lengths less three.
pub proof fn lemma_match_length_codes(c: int)
    requires
        0 <= c <= 52,
    ensures
        c <= 32 ==> ML_BASE@[c] == c + 3,
        c < 52 ==> ML_BASE@[c] + pow2(ML_BITS@[c] as nat) == ML_BASE@[c + 1],
        c == 52 ==> ML_BASE@[c] + pow2(ML_BITS@[c] as nat) == 131075,
        c >= 43 ==> ML_BASE@[c] == pow2((c - 36) as nat) + 3,
        c < 32 ==> ML_BITS@[c] == 0,
        32 <= c < 36 ==> ML_BITS@[c] == 1,
        36 <= c < 38 ==> ML_BITS@[c] == 2,
        38 <= c < 40 ==> ML_BITS@[c] == 3,
        40 <= c < 42 ==> ML_BITS@[c] == 4,
        c == 42 ==> ML_BITS@[c] == 5,
        c >= 43 ==> ML_BITS@[c] == c - 36,
{
    crate::constants::lemma_ml_tables();
    lemma2_to64();
}

// ---------------------------------------------------------------------------
// Execution
// ---------------------------------------------------------------------------

/// What the values of offsets stand for.  A value above 3 is 3 more than the offset, and the
/// offset becomes the latest.  After literals, 1, 2 and 3 are the latest three; without them
/// they are the second, the third, and one less than the latest.  An offset that is used
/// comes to the front.
pub proof fn lemma_offset_values(h: OffsetHistory, v: nat, ll: nat)
    requires
        v >= 1,
        h.r0 >= 1,
    ensures
        v > 3 ==> h.offset(v, ll) == v - 3 && h.after(v, ll) == (OffsetHistory {
            r0: (v - 3) as nat,
            r1: h.r0,
            r2: h.r1,
        }),
        v == 1 && ll > 0 ==> h.offset(v, ll) == h.r0 && h.after(v, ll) == h,
        v == 2 && ll > 0 ==> h.offset(v, ll) == h.r1 && h.after(v, ll) == (OffsetHistory {
            r0: h.r1,
            r1: h.r0,
            r2: h.r2,
        }),
        v == 3 && ll > 0 ==> h.offset(v, ll) == h.r2 && h.after(v, ll) == (OffsetHistory {
            r0: h.r2,
            r1: h.r0,
            r2: h.r1,
        }),
        v == 1 && ll == 0 ==> h.offset(v, ll) == h.r1 && h.after(v, ll) == (OffsetHistory {
            r0: h.r1,
            r1: h.r0,
            r2: h.r2,
        }),
        v == 2 && ll == 0 ==> h.offset(v, ll) == h.r2 && h.after(v, ll) == (OffsetHistory {
            r0: h.r2,
            r1: h.r0,
            r2: h.r1,
        }),
        v == 3 && ll == 0 ==> h.offset(v, ll) == h.r0 - 1 && h.after(v, ll) == (OffsetHistory {
            r0: (h.r0 - 1) as nat,
            r1: h.r0,
            r2: h.r1,
        }),
{
}

/// `new` is `old` with the bytes `lits` and then `n` more behind it, each of which is the one
/// `off` bytes before it.
pub open spec fn is_extended(
    old_out: Seq<u8>,
    lits: Seq<u8>,
    off: int,
    n: int,
    new: Seq<u8>,
) -> bool {
    let at = old_out.len() + lits.len();
    &&& new.len() == at + n
    &&& new.take(old_out.len() as int) == old_out
    &&& new.subrange(old_out.len() as int, at as int) == lits
    &&& forall|i: int| at <= i < new.len() ==> #[trigger] new[i] == new[i - off]
}

proof fn lemma_extended(old_out: Seq<u8>, lits: Seq<u8>, off: int, n: nat)
    requires
        1 <= off <= old_out.len() + lits.len(),
    ensures
        is_extended(
            old_out,
            lits,
            off,
            n as int,
            old_out + lits + execute::match_bytes(old_out + lits, off, n),
        ),
{
    let base = old_out + lits;
    let m = execute::match_bytes(base, off, n);
    let new = base + m;
    let at = base.len() as int;
    assert(new.take(old_out.len() as int) =~= old_out);
    assert(new.subrange(old_out.len() as int, at) =~= lits);
    assert forall|i: int| at <= i < new.len() implies #[trigger] new[i] == new[i - off] by {
        let k = i - at;
        lemma_mod_bound(k, off);
        assert(new[i] == base[at - off + k % off]);
        if k < off {
            lemma_small_mod(k as nat, off as nat);
        } else {
            lemma_mod_multiples_vanish(-1, k, off);
            assert((k - off) % off == k % off);
            assert(new[i - off] == base[at - off + (k - off) % off]);
        }
    }
}

/// A sequence appends the next literals and then copies, byte by byte, from as far back as
/// its offset says; the copy may run into itself.  It is refused where there are too few
/// literals, where the offset is zero, and where it goes back past the first byte.
pub proof fn lemma_run_one(seq: Sequence, lits: Seq<u8>, p: Progress)
    requires
        p.used <= lits.len(),
    ensures
        ({
            let offset = p.hist.offset(seq.of as nat, seq.ll as nat) as int;
            let enough = p.used + seq.ll <= lits.len();
            &&& !enough ==> execute::run_sequence(seq, lits, p) == Err::<Progress, DecodeError>(
                DecodeError::NotEnoughLiterals {
                    wanted: (p.used + seq.ll) as usize,
                    have: lits.len() as usize,
                },
            )
            &&& enough && offset == 0 ==> execute::run_sequence(seq, lits, p) == Err::<
                Progress,
                DecodeError,
            >(DecodeError::ZeroOffset)
            &&& enough && seq.ml > 0 && offset > p.out.len() + seq.ll ==> execute::run_sequence(
                seq,
                lits,
                p,
            ) == Err::<Progress, DecodeError>(
                DecodeError::OffsetTooLarge {
                    offset: offset as usize,
                    have: (p.out.len() + seq.ll) as usize,
                },
            )
            &&& enough && 1 <= offset <= p.out.len() + seq.ll && p.made + seq.ll + seq.ml
                > u32::MAX ==> execute::run_sequence(seq, lits, p) == Err::<Progress, DecodeError>(
                DecodeError::OutputTooLarge,
            )
            &&& enough && 1 <= offset <= p.out.len() + seq.ll && p.made + seq.ll + seq.ml
                <= u32::MAX ==> {
                &&& execute::run_sequence(seq, lits, p) matches Ok(q)
                &&& q.used == p.used + seq.ll
                &&& q.made == p.made + seq.ll + seq.ml
                &&& q.hist == p.hist.after(seq.of as nat, seq.ll as nat)
                &&& is_extended(
                    p.out,
                    lits.subrange(p.used as int, (p.used + seq.ll) as int),
                    offset,
                    seq.ml as int,
                    q.out,
                )
            }
        }),
{
    let offset = p.hist.offset(seq.of as nat, seq.ll as nat) as int;
    if p.used + seq.ll <= lits.len() {
        let part = lits.subrange(p.used as int, (p.used + seq.ll) as int);
        if 1 <= offset <= p.out.len() + seq.ll {
            lemma_extended(p.out, part, offset, seq.ml as nat);
        }
    }
}

/// The sequences of a block are executed in their order, from the state that the block
/// starts with, and the literals that they leave come last.
pub proof fn lemma_run_all(
    seqs: Seq<Sequence>,
    lits: Seq<u8>,
    out: Seq<u8>,
    hist: OffsetHistory,
    i: nat,
    p: Progress,
)
    ensures
        execute::run_block(seqs, lits, out, hist) == match execute::run_sequences(
            seqs,
            0,
            lits,
            Progress { out, hist, used: 0, made: 0 },
        ) {
            Err(e) => Err(e),
            Ok(q) => if q.made + lits.len() - q.used > u32::MAX {
                Err(DecodeError::OutputTooLarge)
            } else {
                Ok((q.out + lits.subrange(q.used as int, lits.len() as int), q.hist))
            },
        },
        i < seqs.len() ==> execute::run_sequences(seqs, i, lits, p) == match execute::run_sequence(
            seqs[i as int],
            lits,
            p,
        ) {
            Err(e) => Err(e),
            Ok(q) => execute::run_sequences(seqs, i + 1, lits, q),
        },
        execute::run_sequences(seqs, seqs.len(), lits, p) == Ok::<Progress, DecodeError>(p),
{
    if let Ok(q) = execute::run_sequences(
        seqs,
        0,
        lits,
        Progress { out, hist, used: 0, made: 0 },
    ) {
        assert(lits.skip(q.used as int) =~= lits.subrange(q.used as int, lits.len() as int));
    }
}

} // verus!
