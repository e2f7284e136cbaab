//! Execution of sequences: literals and matches become output bytes.
use crate::error::DecodeError;
use crate::sequences::Sequence;
use vstd::prelude::*;

verus! {

/// The last three match offsets, the latest first.
pub struct OffsetHistory {
    pub r0: nat,
    pub r1: nat,
    pub r2: nat,
}

impl OffsetHistory {
    /// What every frame starts with.
    pub open spec fn initial() -> OffsetHistory {
        OffsetHistory { r0: 1, r1: 4, r2: 8 }
    }

    pub open spec fn of_seq(h: Seq<u32>) -> OffsetHistory {
        OffsetHistory { r0: h[0] as nat, r1: h[1] as nat, r2: h[2] as nat }
    }

    /// The offset that the offset value `v` of a sequence with `ll` literals stands
    /// for.
    pub open spec fn offset(self, v: nat, ll: nat) -> nat {
        if v > 3 {
            (v - 3) as nat
        } else if ll > 0 {
            if v == 1 {
                self.r0
            } else if v == 2 {
                self.r1
            } else {
                self.r2
            }
        } else if v == 1 {
            self.r1
        } else if v == 2 {
            self.r2
        } else if self.r0 == 0 {
            u32::MAX as nat
        } else {
            (self.r0 - 1) as nat
        }
    }

    /// The history after such a sequence.
    pub open spec fn after(self, v: nat, ll: nat) -> OffsetHistory {
        let actual = self.offset(v, ll);
        if ll > 0 && v == 1 {
            self
        } else if (ll > 0 && v == 2) || (ll == 0 && v == 1) {
            OffsetHistory { r0: actual, r1: self.r0, r2: self.r2 }
        } else {
            OffsetHistory { r0: actual, r1: self.r0, r2: self.r1 }
        }
    }
}

/// Resolves an offset value and updates the history.
pub fn do_offset_history(offset_value: u32, lit_len: u32, hist: &mut [u32; 3]) -> (actual: u32)
    requires
        offset_value >= 1,
    ensures
        actual == OffsetHistory::of_seq(old(hist)@).offset(offset_value as nat, lit_len as nat),
        OffsetHistory::of_seq(final(hist)@) == OffsetHistory::of_seq(old(hist)@).after(
            offset_value as nat,
            lit_len as nat,
        ),
{
    let r0 = hist[0];
    let r1 = hist[1];
    let actual = if offset_value > 3 {
        offset_value - 3
    } else if lit_len > 0 {
        hist[(offset_value - 1) as usize]
    } else if offset_value < 3 {
        hist[offset_value as usize]
    } else {
        r0.wrapping_sub(1)
    };
    if lit_len > 0 && offset_value == 1 {
    } else if (lit_len > 0 && offset_value == 2) || (lit_len == 0 && offset_value == 1) {
        hist[1] = r0;
        hist[0] = actual;
    } else {
        hist[2] = r1;
        hist[1] = r0;
        hist[0] = actual;
    }
    actual
}

/// The `n` bytes that repeat what stands `offset` bytes before the end of `out`.
pub open spec fn match_bytes(out: Seq<u8>, offset: int, n: nat) -> Seq<u8> {
    Seq::new(n, |i: int| out[out.len() - offset + i % offset])
}

/// The decoded bytes of a frame.
pub struct DecodeBuffer {
    pub buffer: Vec<u8>,
    pub window_size: usize,
}

impl DecodeBuffer {
    pub open spec fn view(&self) -> Seq<u8> {
        self.buffer@
    }

    pub fn new(window_size: usize) -> (b: DecodeBuffer)
        ensures
            b@ == Seq::<u8>::empty(),
            b.window_size == window_size,
    {
        DecodeBuffer { buffer: Vec::new(), window_size }
    }

    pub fn reset(&mut self, window_size: usize)
        ensures
            final(self)@ == Seq::<u8>::empty(),
            final(self).window_size == window_size,
    {
        self.window_size = window_size;
        self.buffer.clear();
    }

    pub fn len(&self) -> (n: usize)
        ensures
            n == self@.len(),
    {
        self.buffer.len()
    }

    pub fn push(&mut self, data: &[u8])
        ensures
            final(self)@ == old(self)@ + data@,
            final(self).window_size == old(self).window_size,
    {
        self.buffer.extend_from_slice(data);
    }

    /// Appends `n` times the byte `b`.
    pub fn push_repeated(&mut self, b: u8, n: usize)
        ensures
            final(self)@ == old(self)@ + Seq::new(n as nat, |i: int| b),
            final(self).window_size == old(self).window_size,
    {
        let mut i: usize = 0;
        assert(self@ =~= old(self)@ + Seq::new(0, |i: int| b));
        while i < n
            invariant
                i <= n,
                self@ == old(self)@ + Seq::new(i as nat, |i: int| b),
                self.window_size == old(self).window_size,
            decreases n - i,
        {
            self.buffer.push(b);
            i = i + 1;
            assert(self@ =~= old(self)@ + Seq::new(i as nat, |i: int| b));
        }
    }

    /// Appends `match_length` bytes from `offset` bytes back.
    pub fn repeat(&mut self, offset: usize, match_length: usize) -> (r: Result<(), DecodeError>)
        ensures
            final(self).window_size == old(self).window_size,
            match r {
                Ok(_) => 0 < offset <= old(self)@.len() && final(self)@ == old(self)@
                    + match_bytes(old(self)@, offset as int, match_length as nat),
                Err(DecodeError::OffsetTooLarge { offset: o, have }) => offset > old(self)@.len()
                    && o == offset && have == old(self)@.len(),
                Err(e) => offset == 0 && e == DecodeError::ZeroOffset,
            },
            r is Err ==> final(self)@ == old(self)@,
    {
        let have = self.buffer.len();
        if offset > have {
            return Err(DecodeError::OffsetTooLarge { offset, have });
        }
        if offset == 0 {
            return Err(DecodeError::ZeroOffset);
        }
        let start = have - offset;
        let mut i: usize = 0;
        let ghost out = self@;
        assert(self@ =~= out + match_bytes(out, offset as int, 0));
        while i < match_length
            invariant
                i <= match_length,
                0 < offset <= out.len(),
                start == out.len() - offset,
                out == old(self)@,
                self.window_size == old(self).window_size,
                self@ == out + match_bytes(out, offset as int, i as nat),
            decreases match_length - i,
        {
            let back = i % offset;
            assert(start + back < out.len() && out.len() <= self.buffer.len());
            let byte = self.buffer[start + back];
            self.buffer.push(byte);
            i = i + 1;
            assert(self@ =~= out + match_bytes(out, offset as int, i as nat));
        }
        Ok(())
    }

    /// Takes the bytes out.
    pub fn drain(&mut self) -> (bytes: Vec<u8>)
        ensures
            bytes@ == old(self)@,
            final(self)@ == Seq::<u8>::empty(),
            final(self).window_size == old(self).window_size,
    {
        let mut bytes: Vec<u8> = Vec::new();
        std::mem::swap(&mut bytes, &mut self.buffer);
        bytes
    }
}

/// How far the sequences of a block are executed: the output, the offsets, the
/// literals used, and the bytes made.
#[verifier::ext_equal]
pub struct Progress {
    pub out: Seq<u8>,
    pub hist: OffsetHistory,
    pub used: nat,
    pub made: nat,
}

/// Executes one sequence.
pub open spec fn run_sequence(seq: Sequence, lits: Seq<u8>, p: Progress) -> Result<
    Progress,
    DecodeError,
> {
    let high = p.used + seq.ll as nat;
    let offset = p.hist.offset(seq.of as nat, seq.ll as nat);
    if seq.ll > 0 && high > lits.len() {
        Err(DecodeError::NotEnoughLiterals { wanted: high as usize, have: lits.len() as usize })
    } else {
        let out1 = p.out + lits.subrange(p.used as int, high as int);
        if offset == 0 {
            Err(DecodeError::ZeroOffset)
        } else if seq.ml > 0 && offset > out1.len() {
            Err(DecodeError::OffsetTooLarge { offset: offset as usize, have: out1.len() as usize })
        } else if p.made + seq.ml + seq.ll > u32::MAX {
            Err(DecodeError::OutputTooLarge)
        } else {
            Ok(
                Progress {
                    out: out1 + match_bytes(out1, offset as int, seq.ml as nat),
                    hist: p.hist.after(seq.of as nat, seq.ll as nat),
                    used: high,
                    made: (p.made + seq.ml + seq.ll) as nat,
                },
            )
        }
    }
}

/// Executes the sequences from the `i`th on.
pub open spec fn run_sequences(seqs: Seq<Sequence>, i: nat, lits: Seq<u8>, p: Progress) -> Result<
    Progress,
    DecodeError,
>
    decreases seqs.len() - i,
{
    if i >= seqs.len() {
        Ok(p)
    } else {
        match run_sequence(seqs[i as int], lits, p) {
            Err(e) => Err(e),
            Ok(q) => run_sequences(seqs, i + 1, lits, q),
        }
    }
}

/// Executes all sequences of a block and appends the literals that are left.
pub open spec fn run_block(
    seqs: Seq<Sequence>,
    lits: Seq<u8>,
    out: Seq<u8>,
    hist: OffsetHistory,
) -> Result<(Seq<u8>, OffsetHistory), DecodeError> {
    match run_sequences(seqs, 0, lits, Progress { out, hist, used: 0, made: 0 }) {
        Err(e) => Err(e),
        Ok(p) => if p.made + lits.len() - p.used > u32::MAX {
            Err(DecodeError::OutputTooLarge)
        } else {
            Ok((p.out + lits.skip(p.used as int), p.hist))
        },
    }
}

/// Executes the sequences of a block.
pub fn execute_sequences(
    sequences: &[Sequence],
    literals: &[u8],
    buffer: &mut DecodeBuffer,
    offset_hist: &mut [u32; 3],
) -> (r: Result<(), DecodeError>)
    requires
        forall|i: int| 0 <= i < sequences@.len() ==> (#[trigger] sequences@[i]).of >= 1,
        literals@.len() <= u32::MAX,
    ensures
        final(buffer).window_size == old(buffer).window_size,
        old(buffer)@.is_prefix_of(final(buffer)@),
        match r {
            Ok(_) => run_block(
                sequences@,
                literals@,
                old(buffer)@,
                OffsetHistory::of_seq(old(offset_hist)@),
            ) == Ok::<(Seq<u8>, OffsetHistory), DecodeError>(
                (final(buffer)@, OffsetHistory::of_seq(final(offset_hist)@)),
            ),
            Err(e) => run_block(
                sequences@,
                literals@,
                old(buffer)@,
                OffsetHistory::of_seq(old(offset_hist)@),
            ) == Err::<(Seq<u8>, OffsetHistory), DecodeError>(e),
        },
{
    let mut used: usize = 0;
    let mut made: u32 = 0;
    let mut idx: usize = 0;
    let ghost start = Progress {
        out: buffer@,
        hist: OffsetHistory::of_seq(offset_hist@),
        used: 0,
        made: 0,
    };
    let ghost whole = run_sequences(sequences@, 0, literals@, start);
    while idx < sequences.len()
        invariant
            idx <= sequences@.len(),
            used <= literals@.len(),
            literals@.len() <= u32::MAX,
            forall|i: int| 0 <= i < sequences@.len() ==> (#[trigger] sequences@[i]).of >= 1,
            buffer.window_size == old(buffer).window_size,
            old(buffer)@.is_prefix_of(buffer@),
            start == (Progress {
                out: old(buffer)@,
                hist: OffsetHistory::of_seq(old(offset_hist)@),
                used: 0,
                made: 0,
            }),
            whole == run_sequences(sequences@, 0, literals@, start),
            whole == run_sequences(
                sequences@,
                idx as nat,
                literals@,
                Progress {
                    out: buffer@,
                    hist: OffsetHistory::of_seq(offset_hist@),
                    used: used as nat,
                    made: made as nat,
                },
            ),
        decreases sequences@.len() - idx,
    {
        let seq = sequences[idx];
        let ghost before = Progress {
            out: buffer@,
            hist: OffsetHistory::of_seq(offset_hist@),
            used: used as nat,
            made: made as nat,
        };
        if seq.ll > 0 {
            if seq.ll as usize > literals.len() - used {
                let wanted = used as u64 + seq.ll as u64;
                return Err(
                    DecodeError::NotEnoughLiterals {
                        wanted: wanted as usize,
                        have: literals.len(),
                    },
                );
            }
            let high = used + seq.ll as usize;
            buffer.push(&literals[used..high]);
            used = high;
        }
        assert(buffer@ =~= before.out + literals@.subrange(before.used as int, used as int));
        let ghost out1 = buffer@;
        let actual = do_offset_history(seq.of, seq.ll, offset_hist);
        if actual == 0 {
            return Err(DecodeError::ZeroOffset);
        }
        let total = made as u64 + seq.ml as u64 + seq.ll as u64;
        if total > 0xFFFF_FFFF {
            let have = buffer.len();
            if seq.ml > 0 && actual as usize > have {
                return Err(DecodeError::OffsetTooLarge { offset: actual as usize, have });
            }
            return Err(DecodeError::OutputTooLarge);
        }
        if seq.ml > 0 {
            match buffer.repeat(actual as usize, seq.ml as usize) {
                Ok(_) => {},
                Err(e) => {
                    return Err(e);
                },
            }
        }
        assert(buffer@ =~= out1 + match_bytes(out1, actual as int, seq.ml as nat));
        made = total as u32;
        idx = idx + 1;
    }
    if used < literals.len() {
        let rest = &literals[used..literals.len()];
        if made as u64 + rest.len() as u64 > 0xFFFF_FFFF {
            return Err(DecodeError::OutputTooLarge);
        }
        buffer.push(rest);
        assert(rest@ =~= literals@.skip(used as int));
    } else {
        assert(literals@.skip(used as int) =~= Seq::empty());
    }
    Ok(())
}

} // verus!
