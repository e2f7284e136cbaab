//! Encoding of FSE table descriptions.
use crate::bitreader;
use crate::bits;
use crate::bits::{high_bit_u64, pow2_u32};
use crate::bitstream::BitWriter;
use crate::error::DecodeError;
use crate::fse;
use crate::fse_decode;
use crate::fse_decode::{FseHeader, ProbField};
use crate::fse_table;
use vstd::arithmetic::div_mod::*;
use vstd::arithmetic::power2::*;
use vstd::prelude::*;

verus! {

/// The probability field for the value `v`, where `max` is the largest value: small
/// values take one bit less.
pub open spec fn field_bits(max: nat, v: nat) -> Seq<bool> {
    let w = fse_decode::prob_width(max);
    let low = (pow2(w) - 1 - max) as nat;
    let half = pow2((w - 1) as nat);
    if v < low {
        bits::bits_of(v, (w - 1) as nat)
    } else if v < half {
        bits::bits_of(v, w)
    } else {
        bits::bits_of(v + low, w)
    }
}

/// The number of zero probabilities from symbol `s` on, at most `cap`.
pub open spec fn zero_run(probs: Seq<int>, s: nat, cap: nat) -> nat
    decreases cap,
{
    if cap == 0 || s >= probs.len() || probs[s as int] != 0 {
        0
    } else {
        1 + zero_run(probs, s + 1, (cap - 1) as nat)
    }
}

/// The repeat flags for the zero probabilities from symbol `s` on.
pub open spec fn zero_run_bits(probs: Seq<int>, s: nat) -> Seq<bool>
    decreases probs.len() - s,
{
    let n = zero_run(probs, s, 3);
    if n == 3 && s + 3 <= probs.len() {
        bits::bits_of(3, 2) + zero_run_bits(probs, s + 3)
    } else {
        bits::bits_of(n, 2)
    }
}

/// The first symbol after these zero probabilities.
pub open spec fn after_zero_run(probs: Seq<int>, s: nat) -> nat
    decreases probs.len() - s,
{
    let n = zero_run(probs, s, 3);
    if n == 3 && s + 3 <= probs.len() {
        after_zero_run(probs, s + 3)
    } else {
        s + n
    }
}

/// The probabilities from symbol `s` on, when `filled` of `size` cells are filled.
pub open spec fn prob_bits(probs: Seq<int>, size: nat, s: nat, filled: nat) -> Seq<bool>
    decreases probs.len() - s,
{
    if s >= probs.len() || filled >= size {
        Seq::empty()
    } else {
        let p = probs[s as int];
        let field = field_bits((size - filled + 1) as nat, (p + 1) as nat);
        if p != 0 {
            field + prob_bits(probs, size, s + 1, filled + fse_table::cells(p))
        } else {
            proof {
                lemma_after_zero_run(probs, s + 1);
            }
            field + zero_run_bits(probs, s + 1) + prob_bits(
                probs,
                size,
                after_zero_run(probs, s + 1),
                filled,
            )
        }
    }
}

/// The table description of a distribution.
pub open spec fn header_bits(probs: Seq<int>, log: nat) -> Seq<bool> {
    bits::bits_of((log - 5) as nat, 4) + prob_bits(probs, pow2(log), 0, 0)
}

/// The bytes of a table description.
pub open spec fn header_bytes(probs: Seq<int>, log: nat) -> Seq<u8> {
    bits::pack(header_bits(probs, log))
}

proof fn lemma_zero_run(probs: Seq<int>, s: nat, cap: nat)
    requires
        s <= probs.len(),
    ensures
        zero_run(probs, s, cap) <= cap,
        s + zero_run(probs, s, cap) <= probs.len(),
        forall|i: int| s <= i < s + zero_run(probs, s, cap) ==> #[trigger] probs[i] == 0,
    decreases cap,
{
    if cap > 0 && s < probs.len() && probs[s as int] == 0 {
        lemma_zero_run(probs, s + 1, (cap - 1) as nat);
    }
}

pub proof fn lemma_after_zero_run(probs: Seq<int>, s: nat)
    requires
        s <= probs.len(),
    ensures
        s <= after_zero_run(probs, s) <= probs.len(),
        forall|i: int| s <= i < after_zero_run(probs, s) ==> #[trigger] probs[i] == 0,
    decreases probs.len() - s,
{
    lemma_zero_run(probs, s, 3);
    if zero_run(probs, s, 3) == 3 && s + 3 <= probs.len() {
        lemma_after_zero_run(probs, s + 3);
    }
}

/// The flags for a run of zero probabilities take at most two bits for each, and two more.
proof fn lemma_zero_run_len(probs: Seq<int>, s: nat)
    requires
        s <= probs.len(),
    ensures
        zero_run_bits(probs, s).len() <= 2 * (after_zero_run(probs, s) - s) + 2,
    decreases probs.len() - s,
{
    lemma_zero_run(probs, s, 3);
    if zero_run(probs, s, 3) == 3 && s + 3 <= probs.len() {
        lemma_zero_run_len(probs, s + 3);
    }
}

proof fn lemma_prob_bits_len(probs: Seq<int>, log: nat, s: nat, filled: nat)
    requires
        s <= probs.len(),
    ensures
        prob_bits(probs, pow2(log), s, filled).len() <= (log + 4) * (probs.len() - s),
    decreases probs.len() - s,
{
    let size = pow2(log);
    let w = log + 4;
    if s < probs.len() && filled < size {
        let max = (size - filled + 1) as nat;
        bits::lemma_high_bit(max);
        lemma_pow2_unfold(log + 1);
        if bits::high_bit(max) > log + 1 {
            bits::lemma_pow2_monotone(log + 2, bits::high_bit(max));
            lemma_pow2_unfold(log + 2);
        }
        lemma_pow2_pos(log);
        let p = probs[s as int];
        let left = (probs.len() - s) as nat;
        if p != 0 {
            lemma_prob_bits_len(probs, log, s + 1, filled + fse_table::cells(p));
            assert(w * left == w + w * (left - 1)) by (nonlinear_arith);
        } else {
            lemma_after_zero_run(probs, s + 1);
            lemma_zero_run_len(probs, s + 1);
            let next = after_zero_run(probs, s + 1);
            lemma_prob_bits_len(probs, log, next, filled);
            let run = (next - s - 1) as nat;
            assert(w * left == w + w * run + w * (probs.len() - next)) by (nonlinear_arith)
                requires
                    left == 1 + run + (probs.len() - next),
            ;
            assert(w * run >= 2 * run) by (nonlinear_arith)
                requires
                    w >= 4,
            ;
        }
    } else {
        assert(w * (probs.len() - s) >= 0) by (nonlinear_arith)
            requires
                s <= probs.len(),
        ;
    }
}

/// How long a table description is at most.
pub proof fn lemma_header_len(probs: Seq<int>, log: nat)
    ensures
        8 * header_bytes(probs, log).len() <= (log + 4) * probs.len() + 11,
{
    lemma_prob_bits_len(probs, log, 0, 0);
    bits::lemma_pack(header_bits(probs, log));
}

/// The bits `b` stand in `src` from bit `idx` on.
#[verifier::opaque]
pub open spec fn stands_at(src: Seq<u8>, idx: nat, b: Seq<bool>) -> bool {
    &&& idx + b.len() <= 8 * src.len()
    &&& bits::byte_bits(src).subrange(idx as int, (idx + b.len()) as int) == b
}

proof fn lemma_stands_split(src: Seq<u8>, idx: nat, a: Seq<bool>, b: Seq<bool>)
    requires
        stands_at(src, idx, a + b),
    ensures
        stands_at(src, idx, a),
        stands_at(src, idx + a.len(), b),
{
    reveal(stands_at);
    let all = bits::byte_bits(src);
    let ab = all.subrange(idx as int, (idx + (a + b).len()) as int);
    assert(all.subrange(idx as int, (idx + a.len()) as int) =~= a) by {
        assert forall|i: int| 0 <= i < a.len() implies all[idx + i] == a[i] by {
            assert(ab[i] == (a + b)[i]);
        }
    }
    assert(all.subrange((idx + a.len()) as int, (idx + a.len() + b.len()) as int) =~= b) by {
        assert forall|i: int| 0 <= i < b.len() implies all[idx + a.len() + i] == b[i] by {
            assert(ab[a.len() + i] == (a + b)[a.len() + i]);
        }
    }
}

proof fn lemma_read_stands(src: Seq<u8>, idx: nat, v: nat, n: nat)
    requires
        n <= 64,
        v < pow2(n),
        stands_at(src, idx, bits::bits_of(v, n)),
    ensures
        bitreader::forward_read(src, idx, n) == Ok::<nat, DecodeError>(v),
{
    reveal(stands_at);
    bits::lemma_val_bits_of_small(v, n);
}

/// A probability field is read back.
proof fn lemma_read_field(src: Seq<u8>, idx: nat, max: nat, v: nat)
    requires
        2 <= max < 65536,
        v <= max,
        stands_at(src, idx, field_bits(max, v)),
        idx + field_bits(max, v).len() < 8 * src.len(),
    ensures
        bitreader::forward_read(src, idx, fse_decode::prob_width(max)) matches Ok(u)
            && fse_decode::prob_field(max, u) == (ProbField {
            value: v,
            used: field_bits(max, v).len(),
        }),
{
    reveal(stands_at);
    let w = fse_decode::prob_width(max);
    let low = (pow2(w) - 1 - max) as nat;
    let half = pow2((w - 1) as nat);
    lemma2_to64();
    bits::lemma_high_bit(max);
    lemma_pow2_unfold(w);
    if w > 17 {
        bits::lemma_pow2_monotone(16, (w - 1) as nat);
    }
    if v < low {
        let all = bits::byte_bits(src);
        let b = bits::bits_of(v, (w - 1) as nat);
        let wide = all.subrange(idx as int, (idx + w) as int);
        let top = seq![all[idx + w - 1]];
        assert(wide =~= b + top) by {
            assert(all.subrange(idx as int, idx + w - 1) == b);
            assert forall|i: int| 0 <= i < w implies wide[i] == (b + top)[i] by {
                if i < w - 1 {
                    assert(all.subrange(idx as int, idx + w - 1)[i] == b[i]);
                }
            }
        }
        bits::lemma_val_concat(b, top);
        bits::lemma_val_bits_of_small(v, (w - 1) as nat);
        let u = bits::val(wide);
        assert(u == v + half * bits::val(top));
        lemma_mod_multiples_vanish(bits::val(top) as int, v as int, half as int);
        lemma_small_mod(v, half);
        assert(u % half == v);
    } else if v < half {
        lemma_read_stands(src, idx, v, w);
        lemma_small_mod(v, half);
    } else {
        lemma_read_stands(src, idx, v + low, w);
        let u = v + low;
        assert(u % half == u - half) by {
            lemma_mod_multiples_vanish(1, (u - half) as int, half as int);
            lemma_small_mod((u - half) as nat, half);
        }
    }
}

/// Repeat flags are read back.
proof fn lemma_read_zero_runs(src: Seq<u8>, idx: nat, probs: Seq<int>, s: nat)
    requires
        s <= probs.len(),
        stands_at(src, idx, zero_run_bits(probs, s)),
    ensures
        fse_decode::read_zero_runs(src, idx, probs.take(s as int)) == Ok::<
            (Seq<int>, nat),
            DecodeError,
        >((probs.take(after_zero_run(probs, s) as int), idx + zero_run_bits(probs, s).len())),
    decreases probs.len() - s,
{
    let n = zero_run(probs, s, 3);
    lemma_zero_run(probs, s, 3);
    lemma2_to64();
    assert(probs.take(s as int) + Seq::new(n, |i: int| 0int) =~= probs.take((s + n) as int));
    if n == 3 && s + 3 <= probs.len() {
        lemma_stands_split(src, idx, bits::bits_of(3, 2), zero_run_bits(probs, s + 3));
        lemma_read_stands(src, idx, 3, 2);
        lemma_read_zero_runs(src, idx + 2, probs, s + 3);
    } else {
        lemma_read_stands(src, idx, n, 2);
    }
}

/// Probabilities are read back.
proof fn lemma_read_probs(src: Seq<u8>, idx: nat, probs: Seq<int>, log: nat, s: nat)
    requires
        fse_table::is_distribution(probs, log),
        probs[probs.len() - 1] != 0,
        s <= probs.len(),
        stands_at(
            src,
            idx,
            prob_bits(probs, pow2(log), s, fse_table::cells_before(probs, s)),
        ),
        idx + prob_bits(probs, pow2(log), s, fse_table::cells_before(probs, s)).len() < 8
            * src.len(),
    ensures
        fse_decode::read_probs(
            src,
            idx,
            pow2(log),
            fse_table::cells_before(probs, s),
            probs.take(s as int),
        ) == Ok::<(Seq<int>, nat), DecodeError>(
            (
                probs,
                idx + prob_bits(probs, pow2(log), s, fse_table::cells_before(probs, s)).len(),
            ),
        ),
    decreases probs.len() - s,
{
    let size = pow2(log);
    let filled = fse_table::cells_before(probs, s);
    let last = (probs.len() - 1) as nat;
    if s == probs.len() {
        assert(probs.take(s as int) =~= probs);
    } else {
        fse_table::lemma_before_monotone(probs, s, last);
        fse_table::lemma_before_monotone(probs, s + 1, probs.len());
        assert(filled < size);
        lemma2_to64();
        bits::lemma_pow2_monotone(log, 15);
        let p = probs[s as int];
        let max = (size - filled + 1) as nat;
        let v = (p + 1) as nat;
        let field = field_bits(max, v);
        assert(probs.take(s as int).push(p) =~= probs.take((s + 1) as int));
        if p != 0 {
            let rest = prob_bits(probs, size, s + 1, filled + fse_table::cells(p));
            lemma_stands_split(src, idx, field, rest);
            lemma_read_field(src, idx, max, v);
            lemma_read_probs(src, idx + field.len(), probs, log, s + 1);
        } else {
            let s2 = after_zero_run(probs, s + 1);
            let zb = zero_run_bits(probs, s + 1);
            let rest = prob_bits(probs, size, s2, filled);
            lemma_after_zero_run(probs, s + 1);
            lemma_zero_cells(probs, s, s2);
            assert(field + zb + rest =~= field + (zb + rest));
            lemma_stands_split(src, idx, field, zb + rest);
            lemma_stands_split(src, idx + field.len(), zb, rest);
            lemma_read_field(src, idx, max, v);
            lemma_read_zero_runs(src, idx + field.len(), probs, s + 1);
            lemma_read_probs(src, idx + field.len() + zb.len(), probs, log, s2);
        }
    }
}

proof fn lemma_zero_cells(probs: Seq<int>, a: nat, b: nat)
    requires
        a <= b <= probs.len(),
        forall|i: int| a <= i < b ==> #[trigger] probs[i] == 0,
    ensures
        fse_table::cells_before(probs, b) == fse_table::cells_before(probs, a),
    decreases b - a,
{
    if a < b {
        lemma_zero_cells(probs, a, (b - 1) as nat);
        assert(probs[b - 1] == 0);
    }
}

/// Packed bits stand at the start of the bytes.
proof fn lemma_packed_stands(b: Seq<bool>, rest: Seq<u8>)
    ensures
        stands_at(bits::pack(b) + rest, 0, b),
{
    reveal(stands_at);
    let bytes = bits::pack(b);
    bits::lemma_pack(b);
    bits::lemma_byte_bits_concat(bytes, rest);
    assert(bits::byte_bits(bytes + rest).subrange(0, b.len() as int) =~= b);
}

/// A table description is read back, whatever follows it.
pub proof fn lemma_header_round_trip(
    rest: Seq<u8>,
    probs: Seq<int>,
    log: nat,
    max_log: nat,
    max_symbol: nat,
)
    requires
        fse_table::is_distribution(probs, log),
        5 <= log <= max_log,
        probs[probs.len() - 1] != 0,
        probs.len() <= max_symbol + 1,
        rest.len() > 0,
    ensures
        fse_decode::fse_header(header_bytes(probs, log) + rest, max_log, max_symbol) == Ok::<
            FseHeader,
            DecodeError,
        >(FseHeader { log, probs, bytes: header_bytes(probs, log).len() }),
{
    let bytes = header_bytes(probs, log);
    let src = bytes + rest;
    let fields = prob_bits(probs, pow2(log), 0, 0);
    let b = header_bits(probs, log);
    assert(bytes.len() == (b.len() + 7) / 8) by {
        bits::lemma_pack(b);
    }
    lemma_packed_stands(b, rest);
    lemma_stands_split(src, 0, bits::bits_of((log - 5) as nat, 4), fields);
    assert(pow2(4) == 16 && (log <= 15 ==> log - 5 < 16)) by {
        lemma2_to64();
    }
    lemma_read_stands(src, 0, (log - 5) as nat, 4);
    assert(probs.take(0) =~= Seq::<int>::empty());
    lemma_read_probs(src, 4, probs, log, 0);
    lemma_header_parts(src, probs, log, max_log, max_symbol, 4 + fields.len());
}

/// How a table description is read, part by part.
proof fn lemma_header_parts(
    src: Seq<u8>,
    probs: Seq<int>,
    log: nat,
    max_log: nat,
    max_symbol: nat,
    end: nat,
)
    requires
        5 <= log <= max_log,
        probs.len() <= max_symbol + 1,
        bitreader::forward_read(src, 0, 4) == Ok::<nat, DecodeError>((log - 5) as nat),
        fse_decode::read_probs(src, 4, pow2(log), 0, Seq::empty()) == Ok::<
            (Seq<int>, nat),
            DecodeError,
        >((probs, end)),
    ensures
        fse_decode::fse_header(src, max_log, max_symbol) == Ok::<FseHeader, DecodeError>(
            FseHeader { log, probs, bytes: (end + 7) / 8 },
        ),
{
}

/// Writes the field of one probability.
fn write_field(w: &mut BitWriter, max: u32, value: u32)
    requires
        old(w).wf(),
        2 <= max < 65536,
        value <= max,
    ensures
        final(w).wf(),
        final(w).bits() == old(w).bits() + field_bits(max as nat, value as nat),
{
    let width = high_bit_u64(max as u64) + 1;
    proof {
        lemma2_to64();
        bits::lemma_high_bit(max as nat);
        lemma_pow2_unfold(width as nat);
        if width > 17 {
            bits::lemma_pow2_monotone(16, (width - 1) as nat);
        }
    }
    let low_threshold = pow2_u32(width) - 1 - max;
    let half = pow2_u32(width - 1);
    if value < low_threshold {
        w.write_bits(value as u64, width - 1);
    } else if value < half {
        w.write_bits(value as u64, width);
    } else {
        w.write_bits((value + low_threshold) as u64, width);
    }
}

/// Writes the repeat flags for the zero probabilities from symbol `s` on; returns the
/// first symbol after them.
fn write_zero_runs(w: &mut BitWriter, norm: &[i16], max_symbol: usize, s: usize) -> (next: usize)
    requires
        old(w).wf(),
        max_symbol < norm@.len(),
        s <= max_symbol + 1,
    ensures
        final(w).wf(),
        final(w).bits() == old(w).bits() + zero_run_bits(
            fse::norm_probs(norm@, max_symbol as int),
            s as nat,
        ),
        next == after_zero_run(fse::norm_probs(norm@, max_symbol as int), s as nat),
        s <= next <= max_symbol + 1,
{
    let ghost probs = fse::norm_probs(norm@, max_symbol as int);
    let ghost before = w.bits();
    let have = norm.len();
    let mut at: usize = s;
    proof {
        lemma_after_zero_run(probs, s as nat);
        assert(before + zero_run_bits(probs, s as nat) =~= w.bits() + zero_run_bits(
            probs,
            at as nat,
        ));
    }
    loop
        invariant
            w.wf(),
            max_symbol < have,
            have == norm@.len(),
            probs == fse::norm_probs(norm@, max_symbol as int),
            before == old(w).bits(),
            s <= at <= max_symbol + 1,
            before + zero_run_bits(probs, s as nat) == w.bits() + zero_run_bits(probs, at as nat),
            after_zero_run(probs, s as nat) == after_zero_run(probs, at as nat),
            after_zero_run(probs, s as nat) <= max_symbol + 1,
        decreases max_symbol + 1 - at,
    {
        let mut repeat: usize = 0;
        while repeat < 3 && at + repeat <= max_symbol && norm[at + repeat] == 0
            invariant
                repeat <= 3,
                max_symbol < have,
                have == norm@.len(),
                at <= max_symbol + 1,
                at + repeat <= max_symbol + 1,
                probs == fse::norm_probs(norm@, max_symbol as int),
                zero_run(probs, at as nat, 3) == repeat + zero_run(
                    probs,
                    (at + repeat) as nat,
                    (3 - repeat) as nat,
                ),
            decreases 3 - repeat,
        {
            repeat = repeat + 1;
        }
        let ghost mid = w.bits();
        w.write_bits(repeat as u64, 2);
        proof {
            lemma_zero_run(probs, at as nat, 3);
        }
        if repeat < 3 {
            return at + repeat;
        }
        proof {
            assert(mid + (bits::bits_of(3, 2) + zero_run_bits(probs, (at + 3) as nat))
                =~= w.bits() + zero_run_bits(probs, (at + 3) as nat));
        }
        at = at + 3;
    }
}

/// Writes the table description of the normalized counts `norm`.
pub fn encode_fse_header(norm: &[i16], max_symbol: usize, table_log: u32) -> (bytes: Vec<u8>)
    requires
        max_symbol < norm@.len(),
        5 <= table_log,
        fse_table::is_distribution(
            fse::norm_probs(norm@, max_symbol as int),
            table_log as nat,
        ),
    ensures
        bytes@ == header_bytes(fse::norm_probs(norm@, max_symbol as int), table_log as nat),
{
    let ghost probs = fse::norm_probs(norm@, max_symbol as int);
    let ghost goal = header_bits(probs, table_log as nat);
    proof {
        lemma2_to64();
        bits::lemma_pow2_monotone(table_log as nat, 15);
    }
    let table_size = pow2_u32(table_log);
    let mut w = BitWriter::new();
    w.write_bits((table_log - 5) as u64, 4);
    let mut counter: u32 = 0;
    let mut s: usize = 0;
    assert(w.bits() + prob_bits(probs, table_size as nat, 0, 0) =~= goal);
    while s <= max_symbol && counter < table_size
        invariant
            w.wf(),
            max_symbol < norm@.len(),
            s <= max_symbol + 1,
            probs == fse::norm_probs(norm@, max_symbol as int),
            goal == header_bits(probs, table_log as nat),
            fse_table::is_distribution(probs, table_log as nat),
            table_size == pow2(table_log as nat),
            table_size <= 32768,
            counter == fse_table::cells_before(probs, s as nat),
            w.bits() + prob_bits(probs, table_size as nat, s as nat, counter as nat) == goal,
        decreases max_symbol + 1 - s,
    {
        let prob = norm[s];
        let ghost before = w.bits();
        proof {
            assert(probs[s as int] == prob as int);
            fse_table::lemma_before_monotone(probs, (s + 1) as nat, probs.len());
        }
        let max = table_size - counter + 1;
        let value = (prob as i32 + 1) as u32;
        write_field(&mut w, max, value);
        let ghost field = field_bits(max as nat, value as nat);
        if prob == 0 {
            let ghost zb = zero_run_bits(probs, (s + 1) as nat);
            let next = write_zero_runs(&mut w, norm, max_symbol, s + 1);
            proof {
                let rest = prob_bits(probs, table_size as nat, next as nat, counter as nat);
                lemma_after_zero_run(probs, (s + 1) as nat);
                lemma_zero_cells(probs, s as nat, next as nat);
                assert(before + (field + zb + rest) =~= w.bits() + rest);
            }
            s = next;
        } else {
            let n: u32 = if prob == -1 {
                1
            } else {
                prob as u32
            };
            proof {
                let rest = prob_bits(
                    probs,
                    table_size as nat,
                    (s + 1) as nat,
                    (counter + n) as nat,
                );
                assert(before + (field + rest) =~= w.bits() + rest);
            }
            counter = counter + n;
            s = s + 1;
        }
    }
    assert(w.bits() =~= goal);
    w.finish()
}

} // verus!
