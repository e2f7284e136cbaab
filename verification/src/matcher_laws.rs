//! What the match finder finds.
use crate::matcher;
use crate::matcher::{Chains, Found, MatchParams, RawSequence};
use vstd::arithmetic::div_mod::*;
use vstd::arithmetic::mul::*;
use vstd::arithmetic::power2::*;
use vstd::prelude::*;

verus! {

// ---------------------------------------------------------------------------
// Hashes
// ---------------------------------------------------------------------------

/// The number in the four bytes at `pos`.
pub open spec fn four_bytes(data: Seq<u8>, pos: int) -> int {
    data[pos] + 256 * data[pos + 1] + 65536 * data[pos + 2] + 16777216 * data[pos + 3]
}

proof fn lemma_cut(x: nat, log: nat)
    requires
        log <= 32,
    ensures
        (x % 0x1_0000_0000) % pow2(log) == x % pow2(log),
{
    lemma2_to64();
    lemma_pow2_pos(log);
    lemma_pow2_adds(log, (32 - log) as nat);
    lemma_mod_mod(x as int, pow2(log) as int, pow2((32 - log) as nat) as int);
}

proof fn lemma_times_odd(x: nat, y: nat, m: nat)
    requires
        m > 0,
        (x * 0x9E3779B1) % m == (y * 0x9E3779B1) % m,
        0x1_0000_0000nat % m == 0,
    ensures
        x % m == y % m,
{
    let a: int = x as int * 0x9E3779B1;
    let b: int = y as int * 0x9E3779B1;
    let i: int = 0xE8B2F51;
    lemma_mul_mod_noop_left(a, i, m as int);
    lemma_mul_mod_noop_left(b, i, m as int);
    assert((a * i) % (m as int) == (b * i) % (m as int));
    lemma_one(x, m);
    lemma_one(y, m);
}

proof fn lemma_one(x: nat, m: nat)
    requires
        m > 0,
        0x1_0000_0000nat % m == 0,
    ensures
        ((x as int * 0x9E3779B1) * 0xE8B2F51) % (m as int) == x as int % m as int,
{
    let t: int = 150801925;
    let q = 0x1_0000_0000int / m as int;
    lemma_fundamental_div_mod(0x1_0000_0000, m as int);
    assert((x as int * 0x9E3779B1) * 0xE8B2F51 == x + x * t * 0x1_0000_0000) by (nonlinear_arith)
        requires
            0x9E3779B1int * 0xE8B2F51 == 1 + t * 0x1_0000_0000,
    ;
    assert(x * t * 0x1_0000_0000 == (x * t * q) * m) by (nonlinear_arith)
        requires
            0x1_0000_0000 == m * q,
    ;
    lemma_mod_multiples_vanish(x * t * q, x as int, m as int);
    assert((x * t * q) * m == m * (x * t * q)) by (nonlinear_arith);
}

/// Four bytes have the same hash as four others exactly where the numbers in them agree in
/// the low bits, as many as the table has.
pub proof fn lemma_same_hash(data: Seq<u8>, a: int, b: int, log: nat)
    requires
        log <= 32,
    ensures
        matcher::hash_of(data, a, log) < pow2(log),
        matcher::hash_of(data, a, log) == matcher::hash_of(data, b, log) <==> four_bytes(data, a)
            % (pow2(log) as int) == four_bytes(data, b) % (pow2(log) as int),
{
    let va = four_bytes(data, a) as nat;
    let vb = four_bytes(data, b) as nat;
    let m = pow2(log);
    lemma2_to64();
    lemma_pow2_pos(log);
    lemma_pow2_adds(log, (32 - log) as nat);
    lemma_mod_multiples_basic(pow2((32 - log) as nat) as int, m as int);
    assert(0x1_0000_0000nat % m == 0);
    lemma_cut(va * 0x9E3779B1, log);
    lemma_cut(vb * 0x9E3779B1, log);
    lemma_mod_bound((va * 0x9E3779B1) as int, m as int);
    if (va * 0x9E3779B1) % m == (vb * 0x9E3779B1) % m {
        lemma_times_odd(va, vb, m);
    }
    if va % m == vb % m {
        lemma_mul_mod_noop_left(va as int, 0x9E3779B1, m as int);
        lemma_mul_mod_noop_left(vb as int, 0x9E3779B1, m as int);
    }
}

// ---------------------------------------------------------------------------
// One position
// ---------------------------------------------------------------------------

/// The `k`-th position on a chain: the head, and then the position before each.
pub open spec fn on_chain(prev: Seq<u32>, head: int, k: nat) -> int
    decreases k,
{
    if k == 0 {
        head
    } else {
        prev[on_chain(prev, head, (k - 1) as nat)] as int
    }
}

/// The first `k + 1` positions on a chain go backwards from `pos`, at most 16 MiB.
pub open spec fn in_reach(prev: Seq<u32>, head: int, pos: int, k: nat) -> bool {
    &&& head < pos
    &&& forall|i: nat| i <= k ==> pos - #[trigger] on_chain(prev, head, i) <= 16 * 1024 * 1024
    &&& forall|i: nat|
        i < k ==> #[trigger] on_chain(prev, head, i + 1) < on_chain(prev, head, i)
}

proof fn lemma_chain_shift(prev: Seq<u32>, head: int, k: nat)
    ensures
        on_chain(prev, prev[head] as int, k) == on_chain(prev, head, k + 1),
    decreases k,
{
    if k > 0 {
        lemma_chain_shift(prev, head, (k - 1) as nat);
    } else {
        assert(on_chain(prev, head, 0) == head);
        assert(on_chain(prev, head, 1) == prev[on_chain(prev, head, 0)]);
    }
}

proof fn lemma_chain_falls(prev: Seq<u32>, head: int, pos: int, k: nat)
    requires
        in_reach(prev, head, pos, k),
    ensures
        on_chain(prev, head, k) <= head,
    decreases k,
{
    if k > 0 {
        lemma_chain_falls(prev, head, pos, (k - 1) as nat);
        assert(on_chain(prev, head, (k - 1) as nat + 1) < on_chain(prev, head, (k - 1) as nat));
    }
}

proof fn lemma_walk_grows(
    data: Seq<u8>,
    pos: int,
    prev: Seq<u32>,
    candidate: int,
    depth: nat,
    best: Found,
)
    ensures
        ({
            let f = matcher::walk(data, pos, prev, candidate, depth, best);
            f.len > best.len || f == best
        }),
    decreases depth,
{
    if depth > 0 && candidate < pos && pos - candidate <= 0x100_0000 {
        let limit = if data.len() - pos < 131072 {
            data.len() - pos
        } else {
            131072
        };
        let n = matcher::prefix_len(
            data.subrange(candidate, candidate + limit),
            data.subrange(pos, pos + limit),
        ) as int;
        let better = if n >= 4 && n > best.len {
            Found { off: pos - candidate, len: n }
        } else {
            best
        };
        if prev[candidate] < candidate {
            lemma_walk_grows(data, pos, prev, prev[candidate] as int, (depth - 1) as nat, better);
        }
    }
}

proof fn lemma_common(data: Seq<u8>, pos: int, candidate: int, n: int, limit: int)
    requires
        0 <= candidate < pos,
        matcher::is_match(data, pos, pos - candidate, n),
        n <= limit,
        pos + limit <= data.len(),
    ensures
        matcher::prefix_len(
            data.subrange(candidate, candidate + limit),
            data.subrange(pos, pos + limit),
        ) >= n,
{
    let a = data.subrange(candidate, candidate + limit);
    let b = data.subrange(pos, pos + limit);
    matcher::lemma_prefix_len(a, b);
    let m = matcher::prefix_len(a, b) as int;
    if m < n {
        assert(data[pos + m] == data[pos + m - (pos - candidate)]);
        assert(a[m] == b[m]);
    }
}

proof fn lemma_walk_longest(
    data: Seq<u8>,
    pos: int,
    prev: Seq<u32>,
    candidate: int,
    depth: nat,
    best: Found,
    k: nat,
    n: int,
)
    requires
        k < depth,
        0 <= candidate,
        in_reach(prev, candidate, pos, k),
        4 <= n <= 131072,
        matcher::is_match(data, pos, pos - on_chain(prev, candidate, k), n),
    ensures
        ({
            let f = matcher::walk(data, pos, prev, candidate, depth, best);
            &&& f.len >= n
            &&& best.len < n && f.len == n ==> f.off <= pos - on_chain(prev, candidate, k)
        }),
    decreases depth,
{
    assert(pos - on_chain(prev, candidate, 0) <= 0x100_0000);
    assert(on_chain(prev, candidate, 0) == candidate);
    let limit = if data.len() - pos < 131072 {
        data.len() - pos
    } else {
        131072
    };
    let m = matcher::prefix_len(
        data.subrange(candidate, candidate + limit),
        data.subrange(pos, pos + limit),
    ) as int;
    let better = if m >= 4 && m > best.len {
        Found { off: pos - candidate, len: m }
    } else {
        best
    };
    let next = prev[candidate] as int;
    if next < candidate {
        lemma_walk_grows(data, pos, prev, next, (depth - 1) as nat, better);
    }
    if k == 0 {
        lemma_common(data, pos, candidate, n, limit);
    } else {
        assert(on_chain(prev, candidate, 0 + 1) < on_chain(prev, candidate, 0));
        assert(on_chain(prev, candidate, 1) == next);
        let k1 = (k - 1) as nat;
        lemma_chain_shift(prev, candidate, k1);
        assert(in_reach(prev, next, pos, k1)) by {
            assert forall|i: nat| i <= k1 implies pos - #[trigger] on_chain(prev, next, i)
                <= 16 * 1024 * 1024 by {
                lemma_chain_shift(prev, candidate, i);
                assert(pos - on_chain(prev, candidate, i + 1) <= 16 * 1024 * 1024);
            }
            assert forall|i: nat| i < k1 implies #[trigger] on_chain(prev, next, i + 1)
                < on_chain(prev, next, i) by {
                lemma_chain_shift(prev, candidate, i);
                lemma_chain_shift(prev, candidate, i + 1);
                assert(on_chain(prev, candidate, (i + 1) + 1) < on_chain(prev, candidate, i + 1));
            }
        }
        lemma_chain_falls(prev, candidate, pos, k);
        lemma_walk_longest(data, pos, prev, next, (depth - 1) as nat, better, k1, n);
    }
}

/// Of the positions that a search looks at, as many along the chain as its depth says, it
/// finds the longest match, up to 128 KiB, and of the longest the nearest.
pub proof fn lemma_longest(
    data: Seq<u8>,
    pos: int,
    c: Chains,
    p: MatchParams,
    k: nat,
    n: int,
)
    requires
        k < p.search_depth,
        ({
            let head = c.head[matcher::hash_of(data, pos, p.hash_log as nat) as int] as int;
            &&& in_reach(c.prev, head, pos, k)
            &&& 4 <= n <= 128 * 1024
            &&& matcher::is_match(data, pos, pos - on_chain(c.prev, head, k), n)
        }),
    ensures
        ({
            let head = c.head[matcher::hash_of(data, pos, p.hash_log as nat) as int] as int;
            &&& matcher::best_at(data, pos, c, p) matches Some(f)
            &&& f.len >= n
            &&& f.len == n ==> f.off <= pos - on_chain(c.prev, head, k)
        }),
{
    let head = c.head[matcher::hash_of(data, pos, p.hash_log as nat) as int] as int;
    let none = Found { off: 0, len: 2 };
    lemma_walk_longest(data, pos, c.prev, head, p.search_depth as nat, none, k, n);
}

/// Where the head of a position's chain is at most 16 MiB back and has the same first four
/// bytes, any search finds a match, at least as long as the common prefix with it.
pub proof fn lemma_head_found(data: Seq<u8>, pos: int, c: Chains, p: MatchParams, n: int)
    requires
        p.search_depth >= 1,
        ({
            let head = c.head[matcher::hash_of(data, pos, p.hash_log as nat) as int] as int;
            &&& head < pos <= head + 16 * 1024 * 1024
            &&& 4 <= n <= 128 * 1024
            &&& pos + n <= data.len()
            &&& data.subrange(head, head + n) == data.subrange(pos, pos + n)
        }),
    ensures
        matcher::best_at(data, pos, c, p) matches Some(f) && f.len >= n,
{
    let head = c.head[matcher::hash_of(data, pos, p.hash_log as nat) as int] as int;
    assert(on_chain(c.prev, head, 0) == head);
    assert forall|i: int| pos <= i < pos + n implies #[trigger] data[i] == data[i - (pos
        - head)] by {
        assert(data.subrange(head, head + n)[i - pos] == data.subrange(pos, pos + n)[i - pos]);
    }
    lemma_longest(data, pos, c, p, 0, n);
}

/// What a search finds is a match: at least four bytes, at most 128 KiB, and at most 16 MiB
/// back.
pub proof fn lemma_found_is_match(data: Seq<u8>, pos: int, c: Chains, p: MatchParams)
    requires
        0 <= pos <= data.len(),
    ensures
        matcher::best_at(data, pos, c, p) matches Some(f) ==> {
            &&& 4 <= f.len <= 128 * 1024
            &&& 1 <= f.off <= pos
            &&& f.off <= 16 * 1024 * 1024
            &&& pos + f.len <= data.len()
            &&& data.subrange(pos - f.off, pos - f.off + f.len) == data.subrange(pos, pos + f.len)
        },
{
    let head = c.head[matcher::hash_of(data, pos, p.hash_log as nat) as int] as int;
    let none = Found { off: 0, len: 2 };
    matcher::lemma_walk(data, pos, c.prev, head, p.search_depth as nat, none);
    if let Some(f) = matcher::best_at(data, pos, c, p) {
        let a = data.subrange(pos - f.off, pos - f.off + f.len);
        let b = data.subrange(pos, pos + f.len);
        assert forall|i: int| 0 <= i < f.len implies a[i] == b[i] by {
            assert(data[pos + i] == data[pos + i - f.off]);
        }
        assert(a =~= b);
    }
}

proof fn lemma_walk_deeper(
    data: Seq<u8>,
    pos: int,
    prev: Seq<u32>,
    candidate: int,
    less: nat,
    more: nat,
    best: Found,
)
    requires
        less <= more,
    ensures
        matcher::walk(data, pos, prev, candidate, less, best).len <= matcher::walk(
            data,
            pos,
            prev,
            candidate,
            more,
            best,
        ).len,
    decreases less,
{
    lemma_walk_grows(data, pos, prev, candidate, more, best);
    if less > 0 && candidate < pos && pos - candidate <= 0x100_0000 {
        let limit = if data.len() - pos < 131072 {
            data.len() - pos
        } else {
            131072
        };
        let n = matcher::prefix_len(
            data.subrange(candidate, candidate + limit),
            data.subrange(pos, pos + limit),
        ) as int;
        let better = if n >= 4 && n > best.len {
            Found { off: pos - candidate, len: n }
        } else {
            best
        };
        if prev[candidate] < candidate {
            lemma_walk_deeper(
                data,
                pos,
                prev,
                prev[candidate] as int,
                (less - 1) as nat,
                (more - 1) as nat,
                better,
            );
        }
    }
}

/// A deeper search finds no shorter match.
pub proof fn lemma_deeper(data: Seq<u8>, pos: int, c: Chains, p: MatchParams, q: MatchParams)
    requires
        p.hash_log == q.hash_log,
        p.search_depth <= q.search_depth,
    ensures
        matcher::best_at(data, pos, c, p) matches Some(f) ==> {
            &&& matcher::best_at(data, pos, c, q) matches Some(g)
            &&& f.len <= g.len
        },
{
    let head = c.head[matcher::hash_of(data, pos, p.hash_log as nat) as int] as int;
    let none = Found { off: 0, len: 2 };
    lemma_walk_deeper(
        data,
        pos,
        c.prev,
        head,
        p.search_depth as nat,
        q.search_depth as nat,
        none,
    );
}

/// The match that is taken is never shorter than the one that was found first.  It is the
/// first itself, or the one at the next position where that is longer by two or more, and
/// only a lazy search looks there.
pub proof fn lemma_lazy(data: Seq<u8>, ip: int, first: Found, c: Chains, p: MatchParams)
    ensures
        ({
            let (at, f, after) = matcher::choose_match(data, ip, first, c, p);
            let entered = matcher::insert(c, data, ip, p.hash_log as nat);
            &&& f.len >= first.len
            &&& at == ip ==> f == first
            &&& at != ip ==> at == ip + 1 && f.len >= first.len + 2 && p.lazy_depth >= 1
                && matcher::best_at(data, at, entered, p) == Some(f)
            &&& p.lazy_depth == 0 ==> at == ip && after == c
            &&& (p.lazy_depth >= 1 && ip + 4 < data.len() && (matcher::best_at(
                data,
                ip + 1,
                entered,
                p,
            ) matches Some(second) && second.len >= first.len + 2)) ==> at == ip + 1
        }),
{
}

// ---------------------------------------------------------------------------
// All positions
// ---------------------------------------------------------------------------

/// The table knows the latest position below `n` for the hash of each position below `n`.
pub open spec fn knows(c: Chains, data: Seq<u8>, n: int, log: nat) -> bool {
    &&& c.head.len() == pow2(log)
    &&& c.prev.len() == data.len()
    &&& forall|q: int|
        0 <= q < n && q + 4 <= data.len() ==> {
            let last = c.head[#[trigger] matcher::hash_of(data, q, log) as int] as int;
            q <= last < n && matcher::hash_of(data, last, log) == matcher::hash_of(data, q, log)
        }
}

/// A position that is entered becomes the latest of its hash.
pub proof fn lemma_entered(c: Chains, data: Seq<u8>, pos: int, n: int, log: nat)
    requires
        log <= 32,
        data.len() <= u32::MAX,
        0 <= pos <= n <= pos + 1,
        knows(c, data, n, log),
    ensures
        knows(matcher::insert(c, data, pos, log), data, pos + 1, log),
{
    let after = matcher::insert(c, data, pos, log);
    if pos + 4 <= data.len() {
        lemma_same_hash(data, pos, pos, log);
    }
    assert forall|q: int| 0 <= q < pos + 1 && q + 4 <= data.len() implies {
        let last = after.head[#[trigger] matcher::hash_of(data, q, log) as int] as int;
        q <= last < pos + 1 && matcher::hash_of(data, last, log) == matcher::hash_of(data, q, log)
    } by {
        lemma_same_hash(data, q, q, log);
        if q < n {
            let last = c.head[matcher::hash_of(data, q, log) as int] as int;
            assert(q <= last < n);
        }
    }
}

/// Entering a position makes it the head of the chain of its hash, with the head before it
/// behind it, and changes nothing else.  A position without four bytes is not entered.
pub proof fn lemma_linked(c: Chains, data: Seq<u8>, pos: int, log: nat)
    requires
        log <= 32,
        c.head.len() == pow2(log),
        c.prev.len() == data.len(),
        0 <= pos,
        data.len() <= u32::MAX,
    ensures
        ({
            let after = matcher::insert(c, data, pos, log);
            let h = matcher::hash_of(data, pos, log) as int;
            &&& pos + 4 > data.len() ==> after == c
            &&& pos + 4 <= data.len() ==> {
                &&& after.head[h] == pos
                &&& after.prev[pos] == c.head[h]
                &&& after.head == c.head.update(h, pos as u32)
                &&& after.prev == c.prev.update(pos, c.head[h])
            }
        }),
{
    lemma_same_hash(data, pos, pos, log);
}

proof fn lemma_range_links(c: Chains, data: Seq<u8>, from: int, to: int, log: nat, q: int, r: int)
    requires
        log <= 32,
        data.len() <= u32::MAX,
        0 <= from <= to <= data.len(),
        knows(c, data, from, log),
        is_latest(data, q, r, log),
        q < to,
        q < from ==> c.prev[q] == r,
    ensures
        matcher::insert_range(c, data, from, to, log).prev[q] == r,
    decreases to - from,
{
    if from < to {
        let c1 = matcher::insert(c, data, from, log);
        lemma_entered(c, data, from, from, log);
        if q == from {
            let last = c.head[matcher::hash_of(data, r, log) as int] as int;
            assert(r <= last < from);
            assert(last == r);
        }
        lemma_range_links(c1, data, from + 1, to, log, q, r);
    }
}

/// Where all positions are entered in their order, the position behind each on its chain is
/// the latest before it with the same hash.
pub proof fn lemma_chains(data: Seq<u8>, n: int, log: nat, q: int, r: int)
    requires
        log <= 32,
        data.len() <= u32::MAX,
        0 <= q < n <= data.len(),
        is_latest(data, q, r, log),
    ensures
        ({
            let empty = Chains {
                head: Seq::new(pow2(log), |i: int| 0u32),
                prev: Seq::new(data.len(), |i: int| 0u32),
            };
            let c = matcher::insert_range(empty, data, 0, n, log);
            c.prev[q] == r
        }),
{
    let empty = Chains {
        head: Seq::new(pow2(log), |i: int| 0u32),
        prev: Seq::new(data.len(), |i: int| 0u32),
    };
    lemma_range_links(empty, data, 0, n, log, q, r);
}

proof fn lemma_range_entered(c: Chains, data: Seq<u8>, from: int, to: int, n: int, log: nat)
    requires
        log <= 32,
        data.len() <= u32::MAX,
        0 <= from <= n <= from + 1,
        from < to,
        knows(c, data, n, log),
    ensures
        knows(matcher::insert_range(c, data, from, to, log), data, to, log),
    decreases to - from,
{
    lemma_entered(c, data, from, n, log);
    let c1 = matcher::insert(c, data, from, log);
    if from + 1 < to {
        lemma_range_entered(c1, data, from + 1, to, from + 1, log);
    } else {
        assert(matcher::insert_range(c1, data, from + 1, to, log) == c1);
    }
}

/// One of the sequences, the first of which starts at `start`, has a match that begins at
/// `q + 1` or before and ends behind `q`.
pub open spec fn reaches(seqs: Seq<RawSequence>, start: int, q: int) -> bool {
    exists|i: int|
        0 <= i < seqs.len() && start + #[trigger] matcher::match_at(seqs, i) <= q + 1 && q < start
            + matcher::match_at(seqs, i) + seqs[i].ml
}

proof fn lemma_made_cons(s: RawSequence, rest: Seq<RawSequence>, n: nat)
    requires
        n <= rest.len(),
    ensures
        matcher::made_by(seq![s] + rest, n + 1) == s.ll + s.ml + matcher::made_by(rest, n),
    decreases n,
{
    let all = seq![s] + rest;
    if n > 0 {
        lemma_made_cons(s, rest, (n - 1) as nat);
        assert(all[n as int] == rest[n - 1]);
    } else {
        assert(matcher::made_by(all, 0) == 0);
        assert(all[0] == s);
    }
}

proof fn lemma_reached(
    data: Seq<u8>,
    p: MatchParams,
    c: Chains,
    anchor: int,
    ip: int,
    q: int,
    r: int,
)
    requires
        p.hash_log <= 32,
        p.search_depth >= 1,
        data.len() <= u32::MAX,
        data.len() <= usize::MAX,
        0 <= anchor <= ip <= q,
        knows(c, data, ip, p.hash_log as nat),
        is_latest(data, q, r, p.hash_log as nat),
        matcher::is_match(data, q, q - r, 4),
        q - r <= 16 * 1024 * 1024,
    ensures
        reaches(matcher::matches_from(data, p, c, anchor, ip), anchor, q),
    decreases data.len() - ip,
{
    let log = p.hash_log as nat;
    if ip == q {
        assert(r < q && r + 4 <= data.len());
        let h = c.head[matcher::hash_of(data, r, log) as int] as int;
        assert(h == r);
        lemma_head_at(data, q, r, c, p);
    }
    match matcher::best_at(data, ip, c, p) {
        None => {
            let c1 = matcher::insert(c, data, ip, log);
            lemma_entered(c, data, ip, ip, log);
            lemma_reached(data, p, c1, anchor, ip + 1, q, r);
        },
        Some(first) => {
            matcher::lemma_choose_match(data, ip, first, c, p);
            let (at, f, c1) = matcher::choose_match(data, ip, first, c, p);
            let end = at + f.len;
            let last = matcher::insert_end(data, end);
            let c2 = matcher::insert_range(c1, data, ip, last, log);
            let s = RawSequence {
                ll: (at - anchor) as usize,
                off: f.off as u32,
                ml: f.len as u32,
            };
            let rest = matcher::matches_from(data, p, c2, end, end);
            let all = seq![s] + rest;
            assert(matcher::matches_from(data, p, c, anchor, ip) == all);
            if end > q {
                assert(matcher::match_at(all, 0) == at - anchor);
                assert(all[0] == s);
            } else {
                lemma_entered(c, data, ip, ip, log);
                if p.lazy_depth >= 1 && ip + 4 < data.len() {
                    lemma_range_entered(c1, data, ip, last, ip + 1, log);
                } else {
                    lemma_range_entered(c1, data, ip, last, ip, log);
                }
                assert(knows(c2, data, end, log));
                lemma_reached(data, p, c2, end, end, q, r);
                let i = choose|i: int|
                    0 <= i < rest.len() && end + #[trigger] matcher::match_at(rest, i) <= q + 1
                        && q < end + matcher::match_at(rest, i) + rest[i].ml;
                lemma_made_cons(s, rest, i as nat);
                assert(all[i + 1] == rest[i]);
                assert(matcher::match_at(all, i + 1) == end - anchor + matcher::match_at(rest, i));
            }
        },
    }
}

/// `r` is the latest position before `q` whose four bytes have the same hash.
pub open spec fn is_latest(data: Seq<u8>, q: int, r: int, log: nat) -> bool {
    &&& 0 <= r < q
    &&& q + 4 <= data.len()
    &&& matcher::hash_of(data, r, log) == matcher::hash_of(data, q, log)
    &&& forall|m: int|
        r < m < q ==> #[trigger] matcher::hash_of(data, m, log) != matcher::hash_of(data, q, log)
}

proof fn lemma_head_at(data: Seq<u8>, q: int, r: int, c: Chains, p: MatchParams)
    requires
        p.search_depth >= 1,
        c.head[matcher::hash_of(data, q, p.hash_log as nat) as int] == r,
        0 <= r < q <= r + 16 * 1024 * 1024,
        matcher::is_match(data, q, q - r, 4),
    ensures
        matcher::best_at(data, q, c, p) matches Some(f) && f.len >= 4,
{
    assert(on_chain(c.prev, r, 0) == r);
    lemma_longest(data, q, c, p, 0, 4);
}

proof fn lemma_bytes_match(data: Seq<u8>, q: int, r: int, n: int)
    requires
        0 <= r < q,
        0 <= n,
        q + n <= data.len(),
        data.subrange(r, r + n) == data.subrange(q, q + n),
    ensures
        matcher::is_match(data, q, q - r, n),
{
    let a = data.subrange(r, r + n);
    let b = data.subrange(q, q + n);
    assert forall|i: int| q <= i < q + n implies #[trigger] data[i] == data[i - (q - r)] by {
        let k = i - q;
        assert(a[k] == data[r + k]);
        assert(b[k] == data[q + k]);
    }
}

/// No repetition is passed over: where the four bytes at `q` stand at the latest earlier
/// position with the same hash, at most 16 MiB back, a match of the data goes over `q`, or one
/// starts at the position behind it.
pub proof fn lemma_repetition_found(data: Seq<u8>, p: MatchParams, q: int, r: int)
    requires
        p.hash_log <= 32,
        p.search_depth >= 1,
        data.len() <= u32::MAX,
        data.len() <= usize::MAX,
        is_latest(data, q, r, p.hash_log as nat),
        data.subrange(r, r + 4) == data.subrange(q, q + 4),
        q - r <= 16 * 1024 * 1024,
    ensures
        reaches(matcher::all_matches(data, p), 0, q),
{
    let c = Chains {
        head: Seq::new(pow2(p.hash_log as nat), |i: int| 0u32),
        prev: Seq::new(data.len(), |i: int| 0u32),
    };
    lemma_bytes_match(data, q, r, 4);
    assert(knows(c, data, 0, p.hash_log as nat));
    lemma_reached(data, p, c, 0, 0, q, r);
    assert(matcher::all_matches(data, p) == matcher::matches_from(data, p, c, 0, 0));
}

// ---------------------------------------------------------------------------
// Levels
// ---------------------------------------------------------------------------

/// Below level 1 nothing is searched for; a search at level 0 is one of level 1, and below it
/// one of the highest.
pub proof fn lemma_low_levels(a: int)
    requires
        a <= 0,
    ensures
        MatchParams::for_level(a) == MatchParams::for_level(if a == 0 {
            1
        } else {
            9
        }),
{
}

/// A level of 1 or 2 looks at four positions, one of 3 to 5 at 16, one of 6 to 8 at 64, and
/// any other at 256; from level 3 on the search is lazy.  No higher level looks at fewer
/// positions or has a smaller table.
pub proof fn lemma_levels(a: int, b: int)
    requires
        1 <= a <= b,
    ensures
        MatchParams::for_level(a).search_depth <= MatchParams::for_level(b).search_depth,
        MatchParams::for_level(a).hash_log <= MatchParams::for_level(b).hash_log,
        MatchParams::for_level(a).lazy_depth == (if a >= 3 {
            1int
        } else {
            0
        }),
        MatchParams::for_level(a).search_depth == (if a <= 2 {
            4int
        } else if a <= 5 {
            16
        } else if a <= 8 {
            64
        } else {
            256
        }),
        MatchParams::for_level(a).hash_log == (if a <= 2 {
            17int
        } else if a <= 5 {
            18
        } else if a <= 8 {
            19
        } else {
            20
        }),
{
}

/// A search finds a match with the latest earlier position that has the same hash, where that
/// has the same four bytes and is at most 16 MiB back, and the match is at least as long as
/// what the two have in common.
pub proof fn lemma_latest_found(
    data: Seq<u8>,
    pos: int,
    r: int,
    c: Chains,
    p: MatchParams,
    n: int,
)
    requires
        knows(c, data, pos, p.hash_log as nat),
        is_latest(data, pos, r, p.hash_log as nat),
        p.search_depth >= 1,
        pos - r <= 16 * 1024 * 1024,
        4 <= n <= 128 * 1024,
        pos + n <= data.len(),
        data.subrange(r, r + n) == data.subrange(pos, pos + n),
    ensures
        matcher::best_at(data, pos, c, p) matches Some(f) && f.len >= n,
{
    let log = p.hash_log as nat;
    let h = c.head[matcher::hash_of(data, r, log) as int] as int;
    assert(r <= h < pos);
    assert(h == r);
    lemma_head_found(data, pos, c, p, n);
}

/// The latest positions before `q` with its hash, each the latest before the one before it.
pub open spec fn are_latest(data: Seq<u8>, q: int, rs: Seq<int>, log: nat) -> bool {
    forall|i: int|
        0 <= i < rs.len() ==> is_latest(
            data,
            if i == 0 {
                q
            } else {
                rs[i - 1]
            },
            #[trigger] rs[i],
            log,
        )
}

proof fn lemma_on_chain(data: Seq<u8>, q: int, rs: Seq<int>, c: Chains, log: nat, k: nat)
    requires
        are_latest(data, q, rs, log),
        k < rs.len(),
        forall|x: int, y: int|
            0 <= x < q && #[trigger] is_latest(data, x, y, log) ==> c.prev[x] == y,
    ensures
        on_chain(c.prev, rs[0], k) == rs[k as int],
        rs[k as int] <= rs[0] < q,
        k > 0 ==> rs[k as int] < rs[k - 1],
    decreases k,
{
    assert(is_latest(data, q, rs[0], log));
    if k > 0 {
        lemma_on_chain(data, q, rs, c, log, (k - 1) as nat);
        assert(is_latest(data, rs[k - 1], rs[k as int], log));
        assert(c.prev[rs[k - 1]] == rs[k as int]);
    }
}

/// A search of depth `d` looks at the `d` latest positions with the same hash: where all
/// positions before `q` are entered, and the `k`-th of these has `n` bytes in common with `q`,
/// the match at `q` is at least as long.
pub proof fn lemma_depth_reaches(
    data: Seq<u8>,
    q: int,
    rs: Seq<int>,
    p: MatchParams,
    k: nat,
    n: int,
)
    requires
        p.hash_log <= 32,
        data.len() <= u32::MAX,
        0 <= q < data.len(),
        are_latest(data, q, rs, p.hash_log as nat),
        k < rs.len(),
        k < p.search_depth,
        q - rs[k as int] <= 16 * 1024 * 1024,
        4 <= n <= 128 * 1024,
        q + n <= data.len(),
        data.subrange(rs[k as int], rs[k as int] + n) == data.subrange(q, q + n),
    ensures
        ({
            let log = p.hash_log as nat;
            let empty = Chains {
                head: Seq::new(pow2(log), |i: int| 0u32),
                prev: Seq::new(data.len(), |i: int| 0u32),
            };
            let c = matcher::insert_range(empty, data, 0, q, log);
            matcher::best_at(data, q, c, p) matches Some(f) && f.len >= n
        }),
{
    let log = p.hash_log as nat;
    let empty = Chains {
        head: Seq::new(pow2(log), |i: int| 0u32),
        prev: Seq::new(data.len(), |i: int| 0u32),
    };
    let c = matcher::insert_range(empty, data, 0, q, log);
    assert(is_latest(data, q, rs[0], log));
    assert(knows(empty, data, 0, log));
    lemma_range_entered(empty, data, 0, q, 0, log);
    let head = c.head[matcher::hash_of(data, rs[0], log) as int] as int;
    assert(rs[0] <= head < q);
    assert(head == rs[0]);
    assert forall|x: int, y: int| 0 <= x < q && #[trigger] is_latest(data, x, y, log) implies
        c.prev[x] == y by {
        lemma_chains(data, q, log, x, y);
    }
    assert forall|i: nat| i <= k implies q - #[trigger] on_chain(c.prev, head, i) <= 16 * 1024
        * 1024 by {
        lemma_on_chain(data, q, rs, c, log, i);
        lemma_falls(data, q, rs, log, i, k);
    }
    assert forall|i: nat| i < k implies #[trigger] on_chain(c.prev, head, i + 1) < on_chain(
        c.prev,
        head,
        i,
    ) by {
        lemma_on_chain(data, q, rs, c, log, i);
        lemma_on_chain(data, q, rs, c, log, i + 1);
    }
    lemma_on_chain(data, q, rs, c, log, k);
    let r = rs[k as int];
    lemma_on_chain(data, q, rs, c, log, 0);
    assert(0 <= r) by {
        let before = if k == 0 {
            q
        } else {
            rs[k - 1]
        };
        assert(is_latest(data, before, r, log));
    }
    lemma_bytes_match(data, q, r, n);
    lemma_longest(data, q, c, p, k, n);
}

proof fn lemma_falls(data: Seq<u8>, q: int, rs: Seq<int>, log: nat, i: nat, k: nat)
    requires
        are_latest(data, q, rs, log),
        i <= k < rs.len(),
    ensures
        rs[k as int] <= rs[i as int],
    decreases k - i,
{
    if i < k {
        lemma_falls(data, q, rs, log, i, (k - 1) as nat);
        assert(is_latest(data, rs[k - 1], rs[k as int], log));
    }
}

} // verus!
