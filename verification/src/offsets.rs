//! Repeat offsets.
use crate::execute::OffsetHistory;
use crate::matcher::RawSequence;
use crate::seq_section::EncodedSequence;
use vstd::prelude::*;

verus! {

/// The offset value for the offset `off` after `ll` literals: 1 to 3 where it is one of
/// the last offsets, else 3 more than the offset.  Without literals the last offset
/// itself has no value, and the offset one below it has.
pub open spec fn offset_value(h: OffsetHistory, off: nat, ll: nat) -> nat {
    if ll > 0 {
        if off == h.r0 {
            1
        } else if off == h.r1 {
            2
        } else if off == h.r2 {
            3
        } else {
            off + 3
        }
    } else if off == h.r1 {
        1
    } else if off == h.r2 {
        2
    } else if h.r0 > 1 && off == h.r0 - 1 {
        3
    } else {
        off + 3
    }
}

/// A decoder with the same history gets the offset back.
pub proof fn lemma_offset_round_trip(h: OffsetHistory, off: nat, ll: nat)
    requires
        off >= 1,
    ensures
        h.offset(offset_value(h, off, ll), ll) == off,
        offset_value(h, off, ll) >= 1,
{
}

/// The history after the first `n` sequences.
pub open spec fn history_after(seqs: Seq<RawSequence>, h: OffsetHistory, n: nat) -> OffsetHistory
    decreases n,
{
    if n == 0 {
        h
    } else {
        let before = history_after(seqs, h, (n - 1) as nat);
        let s = seqs[n - 1];
        before.after(offset_value(before, s.off as nat, s.ll as nat), s.ll as nat)
    }
}

/// Sequences with offset values.
pub open spec fn resolved(seqs: Seq<RawSequence>, h: OffsetHistory) -> Seq<EncodedSequence> {
    Seq::new(
        seqs.len(),
        |i: int|
            EncodedSequence {
                ll: seqs[i].ll as u32,
                of_value: offset_value(
                    history_after(seqs, h, i as nat),
                    seqs[i].off as nat,
                    seqs[i].ll as nat,
                ) as u32,
                ml: seqs[i].ml,
            },
    )
}

/// Gives sequences their offset values and updates the history.
pub fn resolve_repeat_offsets(sequences: &[RawSequence], rep: &mut [u32; 3]) -> (out: Vec<
    EncodedSequence,
>)
    requires
        forall|i: int|
            0 <= i < sequences@.len() ==> (#[trigger] sequences@[i]).ll <= u32::MAX
                && 1 <= sequences@[i].off <= u32::MAX - 3,
    ensures
        out@ == resolved(sequences@, OffsetHistory::of_seq(old(rep)@)),
        OffsetHistory::of_seq(final(rep)@) == history_after(
            sequences@,
            OffsetHistory::of_seq(old(rep)@),
            sequences@.len(),
        ),
{
    let ghost h = OffsetHistory::of_seq(rep@);
    let mut out: Vec<EncodedSequence> = Vec::new();
    let mut i: usize = 0;
    while i < sequences.len()
        invariant
            i <= sequences@.len(),
            forall|i: int|
                0 <= i < sequences@.len() ==> (#[trigger] sequences@[i]).ll <= u32::MAX
                    && 1 <= sequences@[i].off <= u32::MAX - 3,
            h == OffsetHistory::of_seq(old(rep)@),
            OffsetHistory::of_seq(rep@) == history_after(sequences@, h, i as nat),
            out@.len() == i,
            forall|k: int| 0 <= k < i ==> #[trigger] out@[k] == resolved(sequences@, h)[k],
        decreases sequences@.len() - i,
    {
        let seq = sequences[i];
        assert(sequences@[i as int].ll <= u32::MAX);
        let r0 = rep[0];
        let r1 = rep[1];
        let r2 = rep[2];
        let of_value: u32;
        if seq.ll > 0 {
            if seq.off == r0 {
                of_value = 1;
            } else if seq.off == r1 {
                of_value = 2;
                rep[0] = r1;
                rep[1] = r0;
            } else if seq.off == r2 {
                of_value = 3;
                rep[0] = r2;
                rep[1] = r0;
                rep[2] = r1;
            } else {
                of_value = seq.off + 3;
                rep[0] = seq.off;
                rep[1] = r0;
                rep[2] = r1;
            }
        } else {
            if seq.off == r1 {
                of_value = 1;
                rep[0] = r1;
                rep[1] = r0;
            } else if seq.off == r2 {
                of_value = 2;
                rep[0] = r2;
                rep[1] = r0;
                rep[2] = r1;
            } else if r0 > 1 && seq.off == r0 - 1 {
                of_value = 3;
                rep[0] = r0 - 1;
                rep[1] = r0;
                rep[2] = r1;
            } else {
                of_value = seq.off + 3;
                rep[0] = seq.off;
                rep[1] = r0;
                rep[2] = r1;
            }
        }
        out.push(EncodedSequence { ll: seq.ll as u32, of_value, ml: seq.ml });
        i = i + 1;
    }
    assert(out@ =~= resolved(sequences@, h));
    out
}

} // verus!
