//! Hash chain match finder.
use crate::bits;
use crate::bits::{low_bits, pow2_u32};
use crate::constants::{ZSTD_BLOCKSIZE_MAX, ZSTD_MINMATCH};
use vstd::arithmetic::power2::*;
use vstd::prelude::*;

verus! {

/// Literals, then a match: `off` is how far back the match is.
#[derive(Debug, Clone, Copy, PartialEq, Eq, Structural)]
pub struct RawSequence {
    pub ll: usize,
    pub off: u32,
    pub ml: u32,
}

/// Match finder parameters.
#[derive(Debug, Clone, Copy, PartialEq, Eq, Structural)]
pub struct MatchParams {
    pub hash_log: u32,
    /// 0 takes the first match, 1 looks for a better one at the next position.
    pub lazy_depth: u32,
    /// How many earlier positions are looked at.
    pub search_depth: u32,
}

impl MatchParams {
    pub open spec fn for_level(level: int) -> MatchParams {
        if 0 <= level <= 2 {
            MatchParams { hash_log: 17, lazy_depth: 0, search_depth: 4 }
        } else if 3 <= level <= 5 {
            MatchParams { hash_log: 18, lazy_depth: 1, search_depth: 16 }
        } else if 6 <= level <= 8 {
            MatchParams { hash_log: 19, lazy_depth: 1, search_depth: 64 }
        } else {
            MatchParams { hash_log: 20, lazy_depth: 1, search_depth: 256 }
        }
    }

    /// The parameters of a compression level.
    pub fn from_level(level: i32) -> (p: MatchParams)
        ensures
            p == Self::for_level(level as int),
    {
        if 0 <= level && level <= 2 {
            MatchParams { hash_log: 17, lazy_depth: 0, search_depth: 4 }
        } else if 3 <= level && level <= 5 {
            MatchParams { hash_log: 18, lazy_depth: 1, search_depth: 16 }
        } else if 6 <= level && level <= 8 {
            MatchParams { hash_log: 19, lazy_depth: 1, search_depth: 64 }
        } else {
            MatchParams { hash_log: 20, lazy_depth: 1, search_depth: 256 }
        }
    }
}

// ---------------------------------------------------------------------------
// Matches
// ---------------------------------------------------------------------------

/// The `n` bytes at `pos` repeat what stands `off` bytes before.
pub open spec fn is_match(data: Seq<u8>, pos: int, off: int, n: int) -> bool {
    &&& 1 <= off <= pos
    &&& 0 <= n
    &&& pos + n <= data.len()
    &&& forall|i: int| pos <= i < pos + n ==> #[trigger] data[i] == data[i - off]
}

/// The bytes that the first `n` sequences make.
pub open spec fn made_by(seqs: Seq<RawSequence>, n: nat) -> nat
    decreases n,
{
    if n == 0 {
        0
    } else {
        made_by(seqs, (n - 1) as nat) + seqs[n - 1].ll as nat + seqs[n - 1].ml as nat
    }
}

/// Where the match of sequence `i` is.
pub open spec fn match_at(seqs: Seq<RawSequence>, i: int) -> int {
    made_by(seqs, i as nat) + seqs[i].ll
}

/// A sequence whose match is at `pos`.
pub open spec fn is_sequence(data: Seq<u8>, s: RawSequence, pos: int) -> bool {
    &&& 4 <= s.ml <= 131072
    &&& s.off <= 0x100_0000
    &&& is_match(data, pos, s.off as int, s.ml as int)
}

/// The sequences describe a beginning of `data`.
#[verifier::opaque]
pub open spec fn is_parse(data: Seq<u8>, seqs: Seq<RawSequence>) -> bool {
    &&& made_by(seqs, seqs.len()) <= data.len()
    &&& forall|i: int|
        0 <= i < seqs.len() ==> is_sequence(data, #[trigger] seqs[i], match_at(seqs, i))
}

/// `n` is the length of the longest common prefix of `a` and `b`.
pub open spec fn is_prefix_len(a: Seq<u8>, b: Seq<u8>, n: int) -> bool {
    &&& 0 <= n <= a.len()
    &&& n <= b.len()
    &&& a.take(n) == b.take(n)
    &&& n < a.len() && n < b.len() ==> a[n] != b[n]
}

/// The length of the longest common prefix.
pub open spec fn prefix_len(a: Seq<u8>, b: Seq<u8>) -> nat
    decreases a.len(),
{
    if a.len() == 0 || b.len() == 0 || a[0] != b[0] {
        0
    } else {
        1 + prefix_len(a.drop_first(), b.drop_first())
    }
}

pub proof fn lemma_prefix_len(a: Seq<u8>, b: Seq<u8>)
    ensures
        is_prefix_len(a, b, prefix_len(a, b) as int),
    decreases a.len(),
{
    if a.len() == 0 || b.len() == 0 || a[0] != b[0] {
        assert(a.take(0) =~= b.take(0));
    } else {
        lemma_prefix_len(a.drop_first(), b.drop_first());
        let n = prefix_len(a, b) as int;
        assert(a.take(n) =~= b.take(n)) by {
            assert forall|i: int| 0 <= i < n implies a[i] == b[i] by {
                if i > 0 {
                    assert(a.drop_first().take(n - 1)[i - 1] == b.drop_first().take(n - 1)[i - 1]);
                }
            }
        }
    }
}

/// There is only one longest common prefix.
proof fn lemma_prefix_len_unique(a: Seq<u8>, b: Seq<u8>, m: int)
    requires
        is_prefix_len(a, b, m),
    ensures
        m == prefix_len(a, b),
{
    lemma_prefix_len(a, b);
    let n = prefix_len(a, b) as int;
    if m < n {
        assert(a.take(n)[m] == b.take(n)[m]);
    } else if n < m {
        assert(a.take(m)[n] == b.take(m)[n]);
    }
}

/// Computes the length of the longest common prefix.
pub fn common_prefix_len(a: &[u8], b: &[u8]) -> (n: usize)
    ensures
        n == prefix_len(a@, b@),
        is_prefix_len(a@, b@, n as int),
{
    let max = if a.len() < b.len() {
        a.len()
    } else {
        b.len()
    };
    let mut i: usize = 0;
    assert(a@.take(0) =~= b@.take(0));
    while i < max && a[i] == b[i]
        invariant
            i <= max,
            max <= a@.len(),
            max <= b@.len(),
            a@.take(i as int) == b@.take(i as int),
        decreases max - i,
    {
        assert(a@.take(i + 1) =~= a@.take(i as int).push(a@[i as int]));
        assert(b@.take(i + 1) =~= b@.take(i as int).push(b@[i as int]));
        i = i + 1;
    }
    proof {
        lemma_prefix_len_unique(a@, b@, i as int);
    }
    i
}

// ---------------------------------------------------------------------------
// Hash chains
// ---------------------------------------------------------------------------

/// The hash of the four bytes at `pos`: a product, cut to the table size.
pub open spec fn hash_of(data: Seq<u8>, pos: int, log: nat) -> nat {
    let v = data[pos] as nat + 256 * data[pos + 1] as nat + 65536 * data[pos + 2] as nat
        + 16777216 * data[pos + 3] as nat;
    ((v * 0x9E3779B1) % 0x1_0000_0000) % pow2(log)
}

/// Computes the hash of the first four bytes.
fn hash4(data: &[u8], pos: usize, log: u32) -> (h: usize)
    requires
        pos + 4 <= data@.len(),
        log <= 31,
    ensures
        h == hash_of(data@, pos as int, log as nat),
        h < pow2(log as nat),
{
    let v: u64 = data[pos] as u64 + 256 * data[pos + 1] as u64 + 65536 * data[pos + 2] as u64
        + 16777216 * data[pos + 3] as u64;
    let product = v * 0x9E3779B1;
    proof {
        lemma2_to64();
        bits::lemma_pow2_monotone(log as nat, 31);
    }
    low_bits(product % 0x1_0000_0000, log) as usize
}

/// The latest position of each hash, and the position before each position that has
/// the same hash.
#[verifier::ext_equal]
pub struct Chains {
    pub head: Seq<u32>,
    pub prev: Seq<u32>,
}

/// Enters position `pos`.
pub open spec fn insert(c: Chains, data: Seq<u8>, pos: int, log: nat) -> Chains {
    if pos + 4 > data.len() {
        c
    } else {
        let h = hash_of(data, pos, log) as int;
        Chains { head: c.head.update(h, pos as u32), prev: c.prev.update(pos, c.head[h]) }
    }
}

/// Enters the positions from `from` to `to`.
pub open spec fn insert_range(c: Chains, data: Seq<u8>, from: int, to: int, log: nat) -> Chains
    decreases to - from,
{
    if from >= to {
        c
    } else {
        insert_range(insert(c, data, from, log), data, from + 1, to, log)
    }
}

/// A match that was found: how far back and how long; no match is shorter than four.
pub struct Found {
    pub off: int,
    pub len: int,
}

/// Looks at `depth` earlier positions from `candidate` on for a match at `pos` that is
/// longer than `best`.
pub open spec fn walk(
    data: Seq<u8>,
    pos: int,
    prev: Seq<u32>,
    candidate: int,
    depth: nat,
    best: Found,
) -> Found
    decreases depth,
{
    if depth == 0 || candidate >= pos || pos - candidate > 0x100_0000 {
        best
    } else {
        let limit = if data.len() - pos < 131072 {
            data.len() - pos
        } else {
            131072
        };
        let n = prefix_len(
            data.subrange(candidate, candidate + limit),
            data.subrange(pos, pos + limit),
        ) as int;
        let better = if n >= 4 && n > best.len {
            Found { off: pos - candidate, len: n }
        } else {
            best
        };
        let next = prev[candidate] as int;
        if next >= candidate {
            better
        } else {
            walk(data, pos, prev, next, (depth - 1) as nat, better)
        }
    }
}

/// The best match at `pos`.
pub open spec fn best_at(data: Seq<u8>, pos: int, c: Chains, p: MatchParams) -> Option<Found> {
    let f = walk(
        data,
        pos,
        c.prev,
        c.head[hash_of(data, pos, p.hash_log as nat) as int] as int,
        p.search_depth as nat,
        Found { off: 0, len: 2 },
    );
    if f.len >= 3 {
        Some(f)
    } else {
        None
    }
}

/// Where the positions end that are entered for a match that ends at `end`.
pub open spec fn insert_end(data: Seq<u8>, end: int) -> int {
    let last = if data.len() >= 3 {
        data.len() - 3
    } else {
        0
    };
    if end < last {
        end
    } else {
        last
    }
}

/// The match that is taken where `first` was found at `ip`: a lazy search takes the
/// match at the next position if it is longer by more than one.
pub open spec fn choose_match(
    data: Seq<u8>,
    ip: int,
    first: Found,
    c: Chains,
    p: MatchParams,
) -> (int, Found, Chains) {
    if p.lazy_depth >= 1 && ip + 4 < data.len() {
        let c1 = insert(c, data, ip, p.hash_log as nat);
        match best_at(data, ip + 1, c1, p) {
            Some(second) => if second.len > first.len + 1 {
                (ip + 1, second, c1)
            } else {
                (ip, first, c1)
            },
            None => (ip, first, c1),
        }
    } else {
        (ip, first, c)
    }
}

/// The sequences from `ip` on, where the literals since `anchor` belong to no sequence
/// yet.
pub open spec fn matches_from(
    data: Seq<u8>,
    p: MatchParams,
    c: Chains,
    anchor: int,
    ip: int,
) -> Seq<RawSequence>
    decreases data.len() - ip,
{
    if ip + 3 >= data.len() {
        Seq::empty()
    } else {
        match best_at(data, ip, c, p) {
            None => matches_from(
                data,
                p,
                insert(c, data, ip, p.hash_log as nat),
                anchor,
                ip + 1,
            ),
            Some(first) => {
                let (at, f, c1) = choose_match(data, ip, first, c, p);
                let end = at + f.len;
                let c2 = insert_range(
                    c1,
                    data,
                    ip,
                    insert_end(data, end),
                    p.hash_log as nat,
                );
                if end <= ip || end > data.len() {
                    Seq::empty()
                } else {
                    seq![
                        RawSequence {
                            ll: (at - anchor) as usize,
                            off: f.off as u32,
                            ml: f.len as u32,
                        },
                    ] + matches_from(data, p, c2, end, end)
                }
            },
        }
    }
}

/// The sequences of `data`.
pub open spec fn all_matches(data: Seq<u8>, p: MatchParams) -> Seq<RawSequence> {
    matches_from(
        data,
        p,
        Chains {
            head: Seq::new(pow2(p.hash_log as nat), |i: int| 0u32),
            prev: Seq::new(data.len(), |i: int| 0u32),
        },
        0,
        0,
    )
}

/// Enters position `pos` into the chains.
pub fn insert_hash(
    hash_table: &mut Vec<u32>,
    chain: &mut Vec<u32>,
    data: &[u8],
    pos: usize,
    log: u32,
)
    requires
        log <= 31,
        old(hash_table)@.len() == pow2(log as nat),
        old(chain)@.len() == data@.len(),
    ensures
        (Chains { head: final(hash_table)@, prev: final(chain)@ }) == insert(
            Chains { head: old(hash_table)@, prev: old(chain)@ },
            data@,
            pos as int,
            log as nat,
        ),
        final(hash_table)@.len() == old(hash_table)@.len(),
        final(chain)@.len() == old(chain)@.len(),
{
    if data.len() < 4 || pos > data.len() - 4 {
        return;
    }
    let h = hash4(data, pos, log);
    chain[pos] = hash_table[h];
    hash_table[h] = pos as u32;
}

/// Finds the best match at `pos`: how far back and how long.
pub fn find_best_at(
    data: &[u8],
    pos: usize,
    hash_table: &Vec<u32>,
    chain: &Vec<u32>,
    log: u32,
    max_depth: u32,
) -> (r: Option<(usize, usize)>)
    requires
        pos + 4 <= data@.len(),
        log <= 31,
        hash_table@.len() == pow2(log as nat),
        chain@.len() == data@.len(),
    ensures
        ({
            let f = best_at(
                data@,
                pos as int,
                Chains { head: hash_table@, prev: chain@ },
                MatchParams { hash_log: log, lazy_depth: 0, search_depth: max_depth },
            );
            match r {
                Some((off, len)) => {
                    &&& f == Some(Found { off: off as int, len: len as int })
                    &&& 4 <= len <= 131072
                    &&& off <= 0x100_0000
                    &&& is_match(data@, pos as int, off as int, len as int)
                },
                None => f is None,
            }
        }),
{
    let have = data.len();
    let h = hash4(data, pos, log);
    let mut candidate = hash_table[h] as usize;
    let mut best_len: usize = ZSTD_MINMATCH - 1;
    let mut best_off: usize = 0;
    let mut depth = max_depth;
    let max_ml = if have - pos < ZSTD_BLOCKSIZE_MAX {
        have - pos
    } else {
        ZSTD_BLOCKSIZE_MAX
    };
    let ghost goal = walk(
        data@,
        pos as int,
        chain@,
        candidate as int,
        depth as nat,
        Found { off: 0, len: 2 },
    );
    while depth > 0 && candidate < pos && pos - candidate <= 0x100_0000
        invariant_except_break
            goal == walk(
                data@,
                pos as int,
                chain@,
                candidate as int,
                depth as nat,
                Found { off: best_off as int, len: best_len as int },
            ),
        invariant
            pos + 4 <= have,
            have == data@.len(),
            chain@.len() == data@.len(),
            max_ml == (if data@.len() - pos < 131072 {
                data@.len() - pos
            } else {
                131072
            }),
            best_len == 2 || 4 <= best_len <= 131072,
            best_off <= 0x100_0000,
            best_len >= 4 ==> is_match(data@, pos as int, best_off as int, best_len as int),
        ensures
            goal == (Found { off: best_off as int, len: best_len as int }),
        decreases depth,
    {
        let a = &data[candidate..candidate + max_ml];
        let b = &data[pos..pos + max_ml];
        let ml = common_prefix_len(a, b);
        if ml >= 4 && ml > best_len {
            best_len = ml;
            best_off = pos - candidate;
            proof {
                assert forall|i: int| pos <= i < pos + ml implies #[trigger] data@[i] == data@[i
                    - best_off] by {
                    assert(a@.take(ml as int)[i - pos] == b@.take(ml as int)[i - pos]);
                }
            }
        }
        let next = chain[candidate] as usize;
        if next >= candidate {
            break;
        }
        candidate = next;
        depth = depth - 1;
    }
    if best_len >= ZSTD_MINMATCH {
        Some((best_off, best_len))
    } else {
        None
    }
}

proof fn lemma_made_push(seqs: Seq<RawSequence>, s: RawSequence, n: nat)
    requires
        n <= seqs.len(),
    ensures
        made_by(seqs.push(s), n) == made_by(seqs, n),
    decreases n,
{
    if n > 0 {
        lemma_made_push(seqs, s, (n - 1) as nat);
    }
}

/// One more sequence continues a parse.
proof fn lemma_parse_push(data: Seq<u8>, seqs: Seq<RawSequence>, s: RawSequence)
    requires
        is_parse(data, seqs),
        is_sequence(data, s, made_by(seqs, seqs.len()) + s.ll),
    ensures
        is_parse(data, seqs.push(s)),
        made_by(seqs.push(s), seqs.len() + 1) == made_by(seqs, seqs.len()) + s.ll + s.ml,
{
    reveal(is_parse);
    let all = seqs.push(s);
    lemma_made_push(seqs, s, seqs.len());
    assert forall|i: int| 0 <= i < all.len() implies is_sequence(
        data,
        #[trigger] all[i],
        match_at(all, i),
    ) by {
        lemma_made_push(seqs, s, i as nat);
        if i < seqs.len() {
            assert(is_sequence(data, seqs[i], match_at(seqs, i)));
        }
    }
}

/// `f` is a match at `pos`, or none.
pub open spec fn is_found(data: Seq<u8>, pos: int, f: Found) -> bool {
    &&& f.len == 2 || 4 <= f.len <= 131072
    &&& 0 <= f.off <= 0x100_0000
    &&& f.len >= 4 ==> is_match(data, pos, f.off, f.len)
}

/// A walk finds a match, or none.
pub proof fn lemma_walk(
    data: Seq<u8>,
    pos: int,
    prev: Seq<u32>,
    candidate: int,
    depth: nat,
    best: Found,
)
    requires
        0 <= candidate,
        0 <= pos <= data.len(),
        is_found(data, pos, best),
    ensures
        is_found(data, pos, walk(data, pos, prev, candidate, depth, best)),
    decreases depth,
{
    if depth > 0 && candidate < pos && pos - candidate <= 0x100_0000 {
        let limit = if data.len() - pos < 131072 {
            data.len() - pos
        } else {
            131072
        };
        let a = data.subrange(candidate, candidate + limit);
        let b = data.subrange(pos, pos + limit);
        let n = prefix_len(a, b) as int;
        lemma_prefix_len(a, b);
        let better = if n >= 4 && n > best.len {
            Found { off: pos - candidate, len: n }
        } else {
            best
        };
        assert(is_match(data, pos, pos - candidate, n)) by {
            assert forall|i: int| pos <= i < pos + n implies #[trigger] data[i] == data[i - (pos
                - candidate)] by {
                assert(a.take(n)[i - pos] == b.take(n)[i - pos]);
            }
        }
        if prev[candidate] < candidate {
            lemma_walk(data, pos, prev, prev[candidate] as int, (depth - 1) as nat, better);
        }
    }
}

/// The match that is taken is a match, at `ip` or behind it.
pub proof fn lemma_choose_match(data: Seq<u8>, ip: int, first: Found, c: Chains, p: MatchParams)
    requires
        0 <= ip,
        ip + 4 <= data.len(),
        best_at(data, ip, c, p) == Some(first),
    ensures
        ({
            let (at, f, _) = choose_match(data, ip, first, c, p);
            &&& ip <= at <= ip + 1
            &&& f.len >= 3
            &&& is_found(data, at, f)
        }),
{
    let none = Found { off: 0, len: 2 };
    let log = p.hash_log as nat;
    lemma_walk(
        data,
        ip,
        c.prev,
        c.head[hash_of(data, ip, log) as int] as int,
        p.search_depth as nat,
        none,
    );
    let c1 = insert(c, data, ip, log);
    lemma_walk(
        data,
        ip + 1,
        c1.prev,
        c1.head[hash_of(data, ip + 1, log) as int] as int,
        p.search_depth as nat,
        none,
    );
}

/// The sequences that are found continue a parse.
proof fn lemma_matches_from(
    data: Seq<u8>,
    p: MatchParams,
    c: Chains,
    before: Seq<RawSequence>,
    anchor: int,
    ip: int,
)
    requires
        is_parse(data, before),
        anchor == made_by(before, before.len()),
        anchor <= ip <= data.len(),
        data.len() <= usize::MAX,
    ensures
        is_parse(data, before + matches_from(data, p, c, anchor, ip)),
    decreases data.len() - ip,
{
    if ip + 3 >= data.len() {
        assert(before + Seq::<RawSequence>::empty() =~= before);
    } else {
        match best_at(data, ip, c, p) {
            None => {
                let c1 = insert(c, data, ip, p.hash_log as nat);
                lemma_matches_from(data, p, c1, before, anchor, ip + 1);
            },
            Some(first) => {
                lemma_choose_match(data, ip, first, c, p);
                let (at, f, c1) = choose_match(data, ip, first, c, p);
                let end = at + f.len;
                let s = RawSequence {
                    ll: (at - anchor) as usize,
                    off: f.off as u32,
                    ml: f.len as u32,
                };
                let c2 = insert_range(c1, data, ip, insert_end(data, end), p.hash_log as nat);
                lemma_parse_push(data, before, s);
                lemma_matches_from(data, p, c2, before.push(s), end, end);
                let rest = matches_from(data, p, c2, end, end);
                assert(before + (seq![s] + rest) =~= before.push(s) + rest);
            },
        }
    }
}

/// Literals and matches together describe the data.
pub proof fn lemma_all_matches(data: Seq<u8>, p: MatchParams)
    requires
        data.len() <= usize::MAX,
    ensures
        is_parse(data, all_matches(data, p)),
{
    let none = Seq::<RawSequence>::empty();
    let c = Chains {
        head: Seq::new(pow2(p.hash_log as nat), |i: int| 0u32),
        prev: Seq::new(data.len(), |i: int| 0u32),
    };
    assert(is_parse(data, none)) by {
        reveal(is_parse);
    }
    lemma_matches_from(data, p, c, none, 0, 0);
    assert(none + all_matches(data, p) =~= all_matches(data, p));
}

/// What a search knows.
struct Finder {
    hash_table: Vec<u32>,
    chain: Vec<u32>,
}

impl Finder {
    spec fn wf(&self, data: Seq<u8>, p: MatchParams) -> bool {
        &&& p.hash_log <= 31
        &&& self.hash_table@.len() == pow2(p.hash_log as nat)
        &&& self.chain@.len() == data.len()
    }

    spec fn view(&self) -> Chains {
        Chains { head: self.hash_table@, prev: self.chain@ }
    }

    /// Chooses the match to take where one was found at `ip`.
    fn settle(&mut self, data: &[u8], ip: usize, off: usize, len: usize, params: &MatchParams) -> (r:
        (usize, usize, usize))
        requires
            old(self).wf(data@, *params),
            ip + 4 <= data@.len(),
            4 <= len <= 131072,
            off <= 0x100_0000,
            is_match(data@, ip as int, off as int, len as int),
        ensures
            final(self).wf(data@, *params),
            ({
                let (at, f, c) = choose_match(
                    data@,
                    ip as int,
                    Found { off: off as int, len: len as int },
                    old(self)@,
                    *params,
                );
                &&& r.0 == at
                &&& r.1 == f.off
                &&& r.2 == f.len
                &&& final(self)@ == c
            }),
            ip <= r.0,
            4 <= r.2 <= 131072,
            r.1 <= 0x100_0000,
            is_match(data@, r.0 as int, r.1 as int, r.2 as int),
    {
        if params.lazy_depth >= 1 && data.len() - ip > 4 {
            insert_hash(&mut self.hash_table, &mut self.chain, data, ip, params.hash_log);
            match find_best_at(
                data,
                ip + 1,
                &self.hash_table,
                &self.chain,
                params.hash_log,
                params.search_depth,
            ) {
                Some((off2, len2)) => {
                    if len2 > len + 1 {
                        return (ip + 1, off2, len2);
                    }
                },
                None => {},
            }
        }
        (ip, off, len)
    }

    /// Enters the positions from `from` to `to`.
    fn insert_all(&mut self, data: &[u8], from: usize, to: usize, params: &MatchParams)
        requires
            old(self).wf(data@, *params),
        ensures
            final(self).wf(data@, *params),
            final(self)@ == insert_range(
                old(self)@,
                data@,
                from as int,
                to as int,
                params.hash_log as nat,
            ),
    {
        let mut p = from;
        let ghost goal = insert_range(
            self@,
            data@,
            from as int,
            to as int,
            params.hash_log as nat,
        );
        while p < to
            invariant
                self.wf(data@, *params),
                goal == insert_range(
                    self@,
                    data@,
                    p as int,
                    to as int,
                    params.hash_log as nat,
                ),
            decreases to - p,
        {
            insert_hash(&mut self.hash_table, &mut self.chain, data, p, params.hash_log);
            p = p + 1;
        }
    }
}

/// Finds the matches of `data`.
pub fn find_matches(data: &[u8], params: &MatchParams) -> (sequences: Vec<RawSequence>)
    requires
        params.hash_log <= 31,
    ensures
        sequences@ == all_matches(data@, *params),
{
    if data.len() < 4 {
        return Vec::new();
    }
    let size = pow2_u32(params.hash_log) as usize;
    let mut finder = Finder { hash_table: vec![0u32; size], chain: vec![0u32; data.len()] };
    let mut sequences: Vec<RawSequence> = Vec::new();
    let mut anchor: usize = 0;
    let mut ip: usize = 0;
    let ghost goal = all_matches(data@, *params);
    proof {
        let c = Chains {
            head: Seq::new(pow2(params.hash_log as nat), |i: int| 0u32),
            prev: Seq::new(data@.len(), |i: int| 0u32),
        };
        assert(finder@ =~= c);
        assert(sequences@ + matches_from(data@, *params, finder@, 0, 0) =~= goal);
    }
    while data.len() - ip > 3
        invariant
            finder.wf(data@, *params),
            anchor <= ip <= data@.len(),
            goal == sequences@ + matches_from(
                data@,
                *params,
                finder@,
                anchor as int,
                ip as int,
            ),
        decreases data@.len() - ip,
    {
        let ghost before = sequences@;
        match find_best_at(
            data,
            ip,
            &finder.hash_table,
            &finder.chain,
            params.hash_log,
            params.search_depth,
        ) {
            Some((off, len)) => {
                let (at, off, len) = finder.settle(data, ip, off, len, params);
                let end = at + len;
                let s = RawSequence { ll: at - anchor, off: off as u32, ml: len as u32 };
                sequences.push(s);
                let last = data.len() - 3;
                let to = if end < last {
                    end
                } else {
                    last
                };
                finder.insert_all(data, ip, to, params);
                proof {
                    let rest = matches_from(
                        data@,
                        *params,
                        finder@,
                        end as int,
                        end as int,
                    );
                    assert(before + (seq![s] + rest) =~= sequences@ + rest);
                }
                ip = end;
                anchor = end;
            },
            None => {
                insert_hash(
                    &mut finder.hash_table,
                    &mut finder.chain,
                    data,
                    ip,
                    params.hash_log,
                );
                ip = ip + 1;
            },
        }
    }
    assert(sequences@ + Seq::<RawSequence>::empty() =~= sequences@);
    sequences
}

} // verus!
