//! Huffman codes are the shortest: no other lengths of a prefix code take fewer bits.
use crate::huf_lengths;
use crate::huf_lengths::Tree;
use crate::normalize;
use vstd::arithmetic::power2::*;
use vstd::prelude::*;

verus! {

// ---------------------------------------------------------------------------
// Lengths of open nodes
// ---------------------------------------------------------------------------

/// The sum of the first `k` numbers.
spec fn total(v: Seq<int>, k: int) -> int
    decreases k,
{
    if k <= 0 {
        0
    } else {
        total(v, k - 1) + v[k - 1]
    }
}

proof fn lemma_total_update(v: Seq<int>, i: int, x: int, k: int)
    requires
        0 <= i < v.len(),
        k <= v.len(),
    ensures
        total(v.update(i, x), k) == total(v, k) + (if i < k {
            x - v[i]
        } else {
            0
        }),
    decreases k,
{
    if k > 0 {
        lemma_total_update(v, i, x, k - 1);
    }
}

/// What each node costs: nodes that are not open cost nothing.
spec fn costs(c: Seq<int>, open: Seq<bool>, f: Seq<nat>) -> Seq<int> {
    Seq::new(
        c.len(),
        |i: int|
            if open[i] {
                c[i] * f[i]
            } else {
                0
            },
    )
}

/// The code space of each node, of `2^m`.
spec fn spaces(open: Seq<bool>, f: Seq<nat>, m: nat) -> Seq<int> {
    Seq::new(
        open.len(),
        |i: int|
            if open[i] {
                pow2((m - f[i]) as nat) as int
            } else {
                0
            },
    )
}

spec fn cost(c: Seq<int>, open: Seq<bool>, f: Seq<nat>) -> int {
    total(costs(c, open, f), c.len() as int)
}

spec fn space(open: Seq<bool>, f: Seq<nat>, m: nat) -> int {
    total(spaces(open, f, m), open.len() as int)
}

/// Another length for one open node.
proof fn lemma_new_length(c: Seq<int>, open: Seq<bool>, f: Seq<nat>, m: nat, i: int, x: nat)
    requires
        0 <= i < c.len(),
        c.len() == open.len() == f.len(),
        open[i],
    ensures
        cost(c, open, f.update(i, x)) == cost(c, open, f) + c[i] * x - c[i] * f[i],
        space(open, f.update(i, x), m) == space(open, f, m) + pow2((m - x) as nat) - pow2(
            (m - f[i]) as nat,
        ),
{
    let g = f.update(i, x);
    assert(costs(c, open, g) =~= costs(c, open, f).update(i, c[i] * x));
    lemma_total_update(costs(c, open, f), i, c[i] * x, c.len() as int);
    assert(spaces(open, g, m) =~= spaces(open, f, m).update(i, pow2((m - x) as nat) as int));
    lemma_total_update(spaces(open, f, m), i, pow2((m - x) as nat) as int, open.len() as int);
}

/// Two open nodes change lengths: that costs no more where the one that gets the longer is
/// the rarer.
proof fn lemma_swap(c: Seq<int>, open: Seq<bool>, f: Seq<nat>, m: nat, x: int, y: int)
    requires
        0 <= x < c.len(),
        0 <= y < c.len(),
        x != y,
        c.len() == open.len() == f.len(),
        open[x],
        open[y],
        c[x] <= c[y],
        f[x] <= f[y],
    ensures
        cost(c, open, f.update(x, f[y]).update(y, f[x])) <= cost(c, open, f),
        space(open, f.update(x, f[y]).update(y, f[x]), m) == space(open, f, m),
{
    lemma_new_length(c, open, f, m, x, f[y]);
    lemma_new_length(c, open, f.update(x, f[y]), m, y, f[x]);
    assert(c[x] * f[y] - c[x] * f[x] + c[y] * f[x] - c[y] * f[y] <= 0) by (nonlinear_arith)
        requires
            c[x] <= c[y],
            f[x] <= f[y],
    ;
}

/// A node with the longest of the open nodes' lengths.
proof fn lemma_longest_open(open: Seq<bool>, f: Seq<nat>, k: int) -> (i: int)
    requires
        open.len() == f.len(),
        0 <= k <= open.len(),
        exists|j: int| 0 <= j < k && #[trigger] open[j],
    ensures
        0 <= i < k,
        open[i],
        forall|j: int| 0 <= j < k && #[trigger] open[j] ==> f[j] <= f[i],
    decreases k,
{
    if exists|j: int| 0 <= j < k - 1 && #[trigger] open[j] {
        let i = lemma_longest_open(open, f, k - 1);
        if open[k - 1] && f[k - 1] > f[i] {
            k - 1
        } else {
            i
        }
    } else {
        k - 1
    }
}

/// Spaces of shorter codes are whole units of the space of the code one shorter than the
/// longest.
proof fn lemma_units(
    open: Seq<bool>,
    f: Seq<nat>,
    m: nat,
    top: nat,
    except: int,
    k: int,
) -> (q: int)
    requires
        open.len() == f.len(),
        0 <= k <= open.len(),
        1 <= top <= m,
        forall|j: int| 0 <= j < k && j != except && #[trigger] open[j] ==> f[j] < top,
        0 <= except < open.len(),
        open[except],
    ensures
        total(spaces(open, f, m), k) == q * pow2((m - top + 1) as nat) + (if except < k {
            pow2((m - f[except]) as nat) as int
        } else {
            0
        }),
    decreases k,
{
    let u = pow2((m - top + 1) as nat) as int;
    if k <= 0 {
        assert(0 * u == 0) by (nonlinear_arith);
        0
    } else {
        let q = lemma_units(open, f, m, top, except, k - 1);
        let i = k - 1;
        if open[i] && i != except {
            assert(f[i] < top);
            let e = (top - 1 - f[i]) as nat;
            lemma_pow2_adds(e, (m - top + 1) as nat);
            let own = pow2(e) as int;
            assert((q + own) * u == q * u + own * u) by (nonlinear_arith);
            q + own
        } else {
            q
        }
    }
}

proof fn lemma_total_positive(v: Seq<int>, k: int)
    requires
        k <= v.len(),
        forall|i: int| 0 <= i < v.len() ==> #[trigger] v[i] >= 0,
    ensures
        total(v, k) >= 0,
        forall|i: int| 0 <= i < k ==> #[trigger] v[i] <= total(v, k),
    decreases k,
{
    if k > 0 {
        lemma_total_positive(v, k - 1);
    }
}

/// Two of the numbers together are no more than the sum.
proof fn lemma_total_two(v: Seq<int>, a: int, b: int)
    requires
        0 <= a < v.len(),
        0 <= b < v.len(),
        a != b,
        forall|i: int| 0 <= i < v.len() ==> #[trigger] v[i] >= 0,
    ensures
        v[a] + v[b] <= total(v, v.len() as int),
{
    let w = v.update(a, 0);
    lemma_total_update(v, a, 0, v.len() as int);
    lemma_total_positive(w, v.len() as int);
    assert(w[b] == v[b]);
}

/// The two rarest open nodes can be siblings at the lowest level, at no cost.
proof fn lemma_siblings(
    c: Seq<int>,
    open: Seq<bool>,
    f: Seq<nat>,
    m: nat,
    a: int,
    b: int,
) -> (g: Seq<nat>)
    requires
        c.len() == open.len() == f.len(),
        0 <= a < c.len(),
        0 <= b < c.len(),
        a != b,
        open[a],
        open[b],
        forall|i: int| 0 <= i < c.len() && #[trigger] open[i] ==> c[i] >= c[a],
        forall|i: int| 0 <= i < c.len() && #[trigger] open[i] && i != a ==> c[i] >= c[b],
        forall|i: int| 0 <= i < c.len() ==> #[trigger] c[i] >= 0,
        forall|i: int| 0 <= i < c.len() && #[trigger] open[i] ==> f[i] <= m,
        space(open, f, m) <= pow2(m),
    ensures
        g.len() == f.len(),
        g[a] == g[b],
        g[a] >= 1,
        forall|i: int| 0 <= i < c.len() && #[trigger] open[i] ==> g[i] <= m,
        space(open, g, m) <= pow2(m),
        cost(c, open, g) <= cost(c, open, f),
    decreases total(lengths(open, f), open.len() as int),
{
    let n = c.len() as int;
    let i = lemma_longest_open(open, f, n);
    let top = f[i];
    lemma_pow2_pos(m);
    if top == 0 {
        let v = spaces(open, f, m);
        assert forall|k: int| 0 <= k < v.len() implies #[trigger] v[k] >= 0 by {}
        lemma_total_two(v, a, b);
        assert(f[a] <= f[i] && f[b] <= f[i]);
        assert(false);
    }
    if exists|j: int| 0 <= j < n && j != i && #[trigger] open[j] && f[j] == top {
        let j = choose|j: int| 0 <= j < n && j != i && #[trigger] open[j] && f[j] == top;
        // The first sibling.
        let (f1, k) = if f[a] == top {
            (f, if i == a {
                j
            } else {
                i
            })
        } else {
            let x = if i == b {
                j
            } else {
                i
            };
            assert(f[a] <= top);
            lemma_swap(c, open, f, m, a, x);
            (f.update(a, f[x]).update(x, f[a]), if i == b {
                i
            } else {
                j
            })
        };
        assert(f1[a] == top && f1[k] == top && k != a);
        assert(forall|y: int| 0 <= y < n && #[trigger] open[y] ==> f1[y] <= top);
        // The second.
        if f1[b] == top {
            f1
        } else {
            lemma_swap(c, open, f1, m, b, k);
            f1.update(b, f1[k]).update(k, f1[b])
        }
    } else {
        // A code that is the only one of its length can be shorter.
        let q = lemma_units(open, f, m, top, i, n);
        let u = pow2((m - top) as nat) as int;
        let whole = pow2((top - 1) as nat) as int;
        lemma_pow2_pos((m - top) as nat);
        lemma_pow2_unfold((m - top + 1) as nat);
        lemma_pow2_adds((top - 1) as nat, (m - top + 1) as nat);
        assert(q * (2 * u) + 2 * u <= whole * (2 * u)) by (nonlinear_arith)
            requires
                q * (2 * u) + u <= whole * (2 * u),
                u > 0,
        ;
        let g = f.update(i, (top - 1) as nat);
        lemma_new_length(c, open, f, m, i, (top - 1) as nat);
        assert(c[i] * (top - 1) <= c[i] * top) by (nonlinear_arith)
            requires
                c[i] >= 0,
        ;
        assert(lengths(open, g) =~= lengths(open, f).update(i, top - 1));
        lemma_total_update(lengths(open, f), i, top - 1, n);
        let v = lengths(open, g);
        assert forall|k: int| 0 <= k < v.len() implies #[trigger] v[k] >= 0 by {}
        lemma_total_positive(v, n);
        lemma_siblings(c, open, g, m, a, b)
    }
}

spec fn lengths(open: Seq<bool>, f: Seq<nat>) -> Seq<int> {
    Seq::new(
        open.len(),
        |i: int|
            if open[i] {
                f[i] as int
            } else {
                0
            },
    )
}

/// Siblings become their parent: the space stays, and the cost falls by their counts.
proof fn lemma_parent(
    c: Seq<int>,
    open: Seq<bool>,
    f: Seq<nat>,
    m: nat,
    a: int,
    b: int,
    p: int,
)
    requires
        c.len() == open.len() == f.len(),
        0 <= a < c.len(),
        0 <= b < c.len(),
        0 <= p < c.len(),
        a != b,
        open[a],
        open[b],
        !open[p],
        f[a] == f[b],
        1 <= f[a] <= m,
    ensures
        ({
            let c1 = c.update(p, c[a] + c[b]);
            let open1 = open.update(a, false).update(b, false).update(p, true);
            let f1 = f.update(p, (f[a] - 1) as nat);
            &&& space(open1, f1, m) == space(open, f, m)
            &&& cost(c1, open1, f1) == cost(c, open, f) - (c[a] + c[b])
        }),
{
    let n = c.len() as int;
    let d = (f[a] - 1) as nat;
    let c1 = c.update(p, c[a] + c[b]);
    let open1 = open.update(a, false).update(b, false).update(p, true);
    let f1 = f.update(p, d);
    let v = spaces(open, f, m);
    let s = pow2((m - d) as nat) as int;
    assert(spaces(open1, f1, m) =~= v.update(a, 0).update(b, 0).update(p, s));
    lemma_total_update(v, a, 0, n);
    lemma_total_update(v.update(a, 0), b, 0, n);
    lemma_total_update(v.update(a, 0).update(b, 0), p, s, n);
    lemma_pow2_unfold((m - d) as nat);
    let w = costs(c, open, f);
    let x = (c[a] + c[b]) * d;
    assert(costs(c1, open1, f1) =~= w.update(a, 0).update(b, 0).update(p, x));
    lemma_total_update(w, a, 0, n);
    lemma_total_update(w.update(a, 0), b, 0, n);
    lemma_total_update(w.update(a, 0).update(b, 0), p, x, n);
    assert(x == c[a] * f[a] + c[b] * f[a] - (c[a] + c[b])) by (nonlinear_arith)
        requires
            x == (c[a] + c[b]) * d,
            d == f[a] - 1,
    ;
}

// ---------------------------------------------------------------------------
// The tree
// ---------------------------------------------------------------------------

/// The nodes without a parent.
spec fn open_of(t: Tree, n: nat) -> Seq<bool> {
    Seq::new(2 * n, |i: int| 0 <= i <= t.low_sym || t.low_node <= i < t.next)
}

spec fn counts_of(t: Tree, n: nat) -> Seq<int> {
    Seq::new(2 * n, |i: int| t.count[i] as int)
}

/// Open leaves are in falling order, and open inner nodes in rising order; no open node has
/// less than half of the latest inner node.
spec fn sorted(t: Tree, n: nat) -> bool {
    &&& forall|i: int, j: int|
        0 <= i < j <= t.low_sym ==> #[trigger] t.count[i] >= #[trigger] t.count[j]
    &&& forall|i: int, j: int|
        t.low_node <= i < j < t.next ==> #[trigger] t.count[i] <= #[trigger] t.count[j]
    &&& t.next > n ==> forall|i: int|
        0 <= i <= t.low_sym || t.low_node <= i < t.next ==> 2 * #[trigger] t.count[i]
            >= t.count[t.next - 1]
}

/// The next two nodes are the rarest, and their parent is the most frequent inner node.
#[verifier::rlimit(30)]
proof fn lemma_rarest(t: Tree, n: nat)
    requires
        t.wf(n),
        sorted(t, n),
        t.next < 2 * n - 1,
    ensures
        ({
            let a = t.pick();
            let b = t.after_pick().pick();
            let open = open_of(t, n);
            &&& 0 <= a < t.next
            &&& 0 <= b < t.next
            &&& a != b
            &&& open[a]
            &&& open[b]
            &&& forall|i: int| 0 <= i < 2 * n && #[trigger] open[i] ==> t.count[i] >= t.count[a]
            &&& forall|i: int|
                0 <= i < 2 * n && #[trigger] open[i] && i != a ==> t.count[i] >= t.count[b]
            &&& t.count[a] + t.count[b] <= 0x100_0000_0000
            &&& open_of(t.merge(), n) == open.update(a, false).update(b, false).update(
                t.next as int,
                true,
            )
            &&& counts_of(t.merge(), n) == counts_of(t, n).update(
                t.next as int,
                t.count[a] + t.count[b],
            )
            &&& t.merge().next == t.next + 1
        }),
        sorted(t.merge(), n),
        t.merge().wf(n),
{
    let a = t.pick();
    let rest = t.after_pick();
    let b = rest.pick();
    let m = t.merge();
    let open = open_of(t, n);
    t.lemma_merge(n);
    t.lemma_pick(n);
    rest.lemma_pick(n);
    assert(t.count[t.next as int] == huf_lengths::NO_COUNT);
    assert forall|i: int| 0 <= i < 2 * n && #[trigger] open[i] implies t.count[i]
        >= t.count[a] by {
        if i <= t.low_sym {
            if i < t.low_sym {
                assert(t.count[i] >= t.count[t.low_sym]);
            }
        } else if i > t.low_node {
            assert(t.count[t.low_node as int] <= t.count[i]);
        }
        lemma_small_counts(t, n, i);
    }
    assert forall|i: int| 0 <= i < 2 * n && #[trigger] open[i] && i != a implies t.count[i]
        >= t.count[b] by {
        if i <= rest.low_sym {
            if i < rest.low_sym {
                assert(t.count[i] >= t.count[rest.low_sym]);
            }
        } else if i > rest.low_node {
            assert(t.count[rest.low_node as int] <= t.count[i]);
        }
        lemma_small_counts(t, n, i);
    }
    assert(open_of(m, n) =~= open.update(a, false).update(b, false).update(t.next as int, true));
    assert(counts_of(m, n) =~= counts_of(t, n).update(
        t.next as int,
        t.count[a] + t.count[b],
    ));
    assert(open[a] && open[b]);
    if t.next > n {
        assert(2 * t.count[a] >= t.count[t.next - 1]);
        assert(2 * t.count[b] >= t.count[t.next - 1]);
    }
    assert forall|i: int, j: int| m.low_node <= i < j < m.next implies #[trigger] m.count[i]
        <= #[trigger] m.count[j] by {
        if j == t.next {
            assert(open[i]);
            if i < t.next - 1 {
                assert(t.count[i] <= t.count[t.next - 1]);
            }
        } else {
            assert(t.count[i] <= t.count[j]);
        }
    }
    assert forall|i: int, j: int| 0 <= i < j <= m.low_sym implies #[trigger] m.count[i]
        >= #[trigger] m.count[j] by {
        assert(t.count[i] >= t.count[j]);
    }
    assert forall|i: int| 0 <= i <= m.low_sym || m.low_node <= i < m.next implies 2
        * #[trigger] m.count[i] >= m.count[m.next - 1] by {
        if i != t.next {
            assert(open[i]);
            assert(i != a && i != b);
            assert(t.count[i] >= t.count[b]);
            assert(t.count[b] >= t.count[a]);
        }
    }
}

/// Counts of open nodes are below the mark of nodes that are not made yet.
proof fn lemma_small_counts(t: Tree, n: nat, i: int)
    requires
        t.wf(n),
        0 <= i < 2 * n,
        open_of(t, n)[i],
    ensures
        t.count[i] < huf_lengths::NO_COUNT,
{
    huf_lengths::lemma_range_bound(t.count, 0, t.low_sym + 1);
    huf_lengths::lemma_range_bound(t.count, t.low_node as int, t.next as int);
}

/// What the inner nodes that are still to be made add up to.
spec fn rest_of(list: Seq<(u32, u8)>, k: nat) -> int
    decreases list.len() - k,
{
    if k + 1 >= list.len() {
        0
    } else {
        let t = huf_lengths::tree_after(list, k);
        t.count[t.pick()] + t.count[t.after_pick().pick()] + rest_of(list, k + 1)
    }
}

proof fn lemma_sorted(list: Seq<(u32, u8)>, k: nat)
    requires
        2 <= list.len() <= 256,
        k < list.len(),
        forall|i: int, j: int|
            0 <= i < j < list.len() ==> (#[trigger] list[i]).0 >= (#[trigger] list[j]).0,
    ensures
        sorted(huf_lengths::tree_after(list, k), list.len()),
    decreases k,
{
    let n = list.len();
    if k == 0 {
        let t = huf_lengths::tree_start(list);
        assert forall|i: int, j: int| 0 <= i < j <= t.low_sym implies #[trigger] t.count[i]
            >= #[trigger] t.count[j] by {
            assert(list[i].0 >= list[j].0);
        }
    } else {
        lemma_sorted(list, (k - 1) as nat);
        huf_lengths::lemma_tree_after(list, (k - 1) as nat);
        lemma_rarest(huf_lengths::tree_after(list, (k - 1) as nat), n);
    }
}

/// Any lengths of a prefix code for the open nodes cost at least what the inner nodes that
/// are still to be made add up to.
proof fn lemma_at_least(list: Seq<(u32, u8)>, k: nat, f: Seq<nat>, m: nat)
    requires
        2 <= list.len() <= 256,
        k < list.len(),
        forall|i: int, j: int|
            0 <= i < j < list.len() ==> (#[trigger] list[i]).0 >= (#[trigger] list[j]).0,
        f.len() == 2 * list.len(),
        ({
            let open = open_of(huf_lengths::tree_after(list, k), list.len());
            &&& forall|i: int| 0 <= i < open.len() && #[trigger] open[i] ==> f[i] <= m
            &&& space(open, f, m) <= pow2(m)
        }),
    ensures
        ({
            let t = huf_lengths::tree_after(list, k);
            cost(counts_of(t, list.len()), open_of(t, list.len()), f) >= rest_of(list, k)
        }),
    decreases list.len() - k,
{
    let n = list.len();
    let t = huf_lengths::tree_after(list, k);
    let c = counts_of(t, n);
    let open = open_of(t, n);
    huf_lengths::lemma_tree_after(list, k);
    if k + 1 >= n {
        let v = costs(c, open, f);
        assert forall|i: int| 0 <= i < v.len() implies #[trigger] v[i] >= 0 by {
            assert(c[i] * f[i] >= 0) by (nonlinear_arith)
                requires
                    c[i] >= 0,
                    f[i] >= 0,
            ;
        }
        lemma_total_positive(v, v.len() as int);
    } else {
        lemma_sorted(list, k);
        lemma_rarest(t, n);
        let a = t.pick();
        let b = t.after_pick().pick();
        let p = t.next as int;
        assert forall|i: int| 0 <= i < c.len() && #[trigger] open[i] implies c[i] >= c[a] by {}
        assert forall|i: int| 0 <= i < c.len() && #[trigger] open[i] && i != a implies c[i]
            >= c[b] by {}
        let g = lemma_siblings(c, open, f, m, a, b);
        assert(!open[p]);
        lemma_parent(c, open, g, m, a, b, p);
        let next = huf_lengths::tree_after(list, k + 1);
        assert(next == t.merge());
        let h = g.update(p, (g[a] - 1) as nat);
        let open1 = open_of(next, n);
        assert forall|i: int| 0 <= i < open1.len() && #[trigger] open1[i] implies h[i] <= m by {
            if i != p {
                assert(open[i]);
            }
        }
        lemma_at_least(list, k + 1, h, m);
    }
}

/// The depths of the nodes in the finished tree.
spec fn depths(list: Seq<(u32, u8)>) -> Seq<nat> {
    let n = list.len();
    let t = huf_lengths::tree_after(list, (n - 1) as nat);
    Seq::new(2 * n, |i: int| huf_lengths::depth(t.parent, (2 * n - 2) as nat, i as nat))
}

/// The depths cost exactly that.
#[verifier::rlimit(30)]
proof fn lemma_exactly(list: Seq<(u32, u8)>, k: nat)
    requires
        2 <= list.len() <= 256,
        k < list.len(),
        forall|i: int, j: int|
            0 <= i < j < list.len() ==> (#[trigger] list[i]).0 >= (#[trigger] list[j]).0,
    ensures
        ({
            let t = huf_lengths::tree_after(list, k);
            cost(counts_of(t, list.len()), open_of(t, list.len()), depths(list)) == rest_of(
                list,
                k,
            )
        }),
    decreases list.len() - k,
{
    let n = list.len();
    let t = huf_lengths::tree_after(list, k);
    let c = counts_of(t, n);
    let open = open_of(t, n);
    let f = depths(list);
    let root = (2 * n - 2) as nat;
    huf_lengths::lemma_tree_after(list, k);
    if k + 1 >= n {
        assert(t.low_sym == -1 && t.low_node == root);
        let v = costs(c, open, f);
        assert forall|i: int| 0 <= i < v.len() implies #[trigger] v[i] == 0 by {
            assert(c[i] * 0 == 0) by (nonlinear_arith);
        }
        lemma_total_zero(v, v.len() as int);
    } else {
        lemma_sorted(list, k);
        lemma_rarest(t, n);
        let a = t.pick();
        let b = t.after_pick().pick();
        let p = t.next as int;
        let last = huf_lengths::tree_after(list, (n - 1) as nat);
        let next = huf_lengths::tree_after(list, k + 1);
        assert(next == t.merge());
        t.lemma_pick(n);
        t.after_pick().lemma_pick(n);
        huf_lengths::lemma_parent_stays(list, k + 1, (n - 1) as nat, a);
        huf_lengths::lemma_parent_stays(list, k + 1, (n - 1) as nat, b);
        assert(last.parent[a] == p && last.parent[b] == p);
        assert(f[a] == 1 + f[p]);
        assert(f[b] == 1 + f[p]);
        lemma_parent(c, open, f, f[a], a, b, p);
        assert(f.update(p, (f[a] - 1) as nat) =~= f);
        lemma_exactly(list, k + 1);
    }
}

proof fn lemma_total_zero(v: Seq<int>, k: int)
    requires
        k <= v.len(),
        forall|i: int| 0 <= i < v.len() ==> #[trigger] v[i] == 0,
    ensures
        total(v, k) == 0,
    decreases k,
{
    if k > 0 {
        lemma_total_zero(v, k - 1);
    }
}

// ---------------------------------------------------------------------------
// Symbols
// ---------------------------------------------------------------------------

/// The bits that the first `n` symbols take with the given lengths.
pub open spec fn coded_bits(counts: Seq<u32>, lens: Seq<nat>, n: int) -> int
    decreases n,
{
    if n <= 0 {
        0
    } else {
        coded_bits(counts, lens, n - 1) + counts[n - 1] * lens[n - 1]
    }
}

/// The code space, of `2^m`, that the lengths of the symbols that occur take.
pub open spec fn coded_space(counts: Seq<u32>, lens: Seq<nat>, m: nat, n: int) -> int
    decreases n,
{
    if n <= 0 {
        0
    } else {
        coded_space(counts, lens, m, n - 1) + if counts[n - 1] > 0 {
            pow2((m - lens[n - 1]) as nat) as int
        } else {
            0
        }
    }
}

/// The first numbers of a sequence into which one was put.
proof fn lemma_total_insert(v: Seq<int>, p: int, x: int, k: int)
    requires
        0 <= p <= v.len(),
        0 <= k <= v.len() + 1,
    ensures
        total(v.insert(p, x), k) == if k <= p {
            total(v, k)
        } else {
            total(v, k - 1) + x
        },
    decreases k,
{
    if k > 0 {
        lemma_total_insert(v, p, x, k - 1);
        if k - 1 < p {
            assert(v.insert(p, x)[k - 1] == v[k - 1]);
        } else if k - 1 > p {
            assert(v.insert(p, x)[k - 1] == v[k - 2]);
        }
    }
}

spec fn leaf_bits(list: Seq<(u32, u8)>, lens: Seq<nat>) -> Seq<int> {
    Seq::new(list.len(), |i: int| list[i].0 * lens[list[i].1 as int])
}

spec fn leaf_space(list: Seq<(u32, u8)>, lens: Seq<nat>, m: nat) -> Seq<int> {
    Seq::new(list.len(), |i: int| pow2((m - lens[list[i].1 as int]) as nat) as int)
}

/// Sums over the leaves are sums over the symbols.
proof fn lemma_by_leaf(counts: Seq<u32>, lens: Seq<nat>, m: nat, n: nat)
    requires
        n <= counts.len() <= 256,
    ensures
        ({
            let list = huf_lengths::leaves(counts, n);
            &&& total(leaf_bits(list, lens), list.len() as int) == coded_bits(
                counts,
                lens,
                n as int,
            )
            &&& total(leaf_space(list, lens, m), list.len() as int) == coded_space(
                counts,
                lens,
                m,
                n as int,
            )
        }),
    decreases n,
{
    if n > 0 {
        lemma_by_leaf(counts, lens, m, (n - 1) as nat);
        let before = huf_lengths::leaves(counts, (n - 1) as nat);
        let list = huf_lengths::leaves(counts, n);
        let count = counts[n - 1];
        let s = (n - 1) as u8;
        if count > 0 {
            let p = huf_lengths::leaf_position(before, count, before.len()) as int;
            huf_lengths::lemma_leaf_position(before, count, before.len());
            let x = count * lens[n - 1];
            let y = pow2((m - lens[n - 1]) as nat) as int;
            assert(leaf_bits(list, lens) =~= leaf_bits(before, lens).insert(p, x));
            assert(leaf_space(list, lens, m) =~= leaf_space(before, lens, m).insert(p, y));
            lemma_total_insert(leaf_bits(before, lens), p, x, list.len() as int);
            lemma_total_insert(leaf_space(before, lens, m), p, y, list.len() as int);
        } else {
            assert(0 * lens[n - 1] == 0) by (nonlinear_arith);
        }
    }
}

/// Sums over the open nodes at the start are sums over the leaves.
proof fn lemma_start_sums(list: Seq<(u32, u8)>, lens: Seq<nat>, f: Seq<nat>, m: nat, k: int)
    requires
        2 <= list.len() <= 256,
        f.len() == 2 * list.len(),
        forall|i: int| 0 <= i < list.len() ==> #[trigger] f[i] == lens[list[i].1 as int],
        0 <= k <= 2 * list.len(),
    ensures
        ({
            let n = list.len() as int;
            let t = huf_lengths::tree_start(list);
            let e = if k <= n {
                k
            } else {
                n
            };
            &&& total(costs(counts_of(t, list.len()), open_of(t, list.len()), f), k) == total(
                leaf_bits(list, lens),
                e,
            )
            &&& total(spaces(open_of(t, list.len()), f, m), k) == total(
                leaf_space(list, lens, m),
                e,
            )
        }),
    decreases k,
{
    if k > 0 {
        lemma_start_sums(list, lens, f, m, k - 1);
        if k - 1 < list.len() {
            assert(f[k - 1] == lens[list[k - 1].1 as int]);
        }
    }
}

/// The depths of the leaves of the tree for counts, by symbol.
spec fn tree_lengths(counts: Seq<u32>) -> Seq<nat> {
    let list = huf_lengths::leaves(counts, counts.len());
    let lens = huf_lengths::by_symbol(
        list,
        huf_lengths::leaf_depths(list),
        counts.len(),
        list.len(),
    );
    Seq::new(lens.len(), |s: int| lens[s] as nat)
}

/// The depths are the shortest lengths of a prefix code.
proof fn lemma_tree_shortest(counts: Seq<u32>, other: Seq<nat>, m: nat)
    requires
        counts.len() <= 256,
        huf_lengths::leaves(counts, counts.len()).len() >= 2,
        other.len() == counts.len(),
        forall|s: int| 0 <= s < counts.len() ==> #[trigger] other[s] <= m,
        coded_space(counts, other, m, counts.len() as int) <= pow2(m),
    ensures
        tree_lengths(counts).len() == counts.len(),
        coded_bits(counts, tree_lengths(counts), counts.len() as int) <= coded_bits(
            counts,
            other,
            counts.len() as int,
        ),
{
    let size = counts.len();
    let list = huf_lengths::leaves(counts, size);
    let n = list.len();
    huf_lengths::lemma_leaves(counts, size);
    huf_lengths::lemma_leaves_sorted(counts, size);
    let t = huf_lengths::tree_start(list);
    let nbits = huf_lengths::leaf_depths(list);
    let lens = huf_lengths::by_symbol(list, nbits, size, n);
    let bits = tree_lengths(counts);
    huf_lengths::lemma_leaf_depths(list);
    huf_lengths::lemma_by_symbol(list, nbits, size, n);
    // Other lengths.
    let f = Seq::new(
        2 * n,
        |i: int|
            if i < n {
                other[list[i].1 as int]
            } else {
                0
            },
    );
    lemma_by_leaf(counts, other, m, size);
    lemma_start_sums(list, other, f, m, 2 * n as int);
    assert(huf_lengths::tree_after(list, 0) == t);
    lemma_at_least(list, 0, f, m);
    // Depths.
    let d = depths(list);
    let root = (2 * n - 2) as nat;
    let last = huf_lengths::tree_after(list, (n - 1) as nat);
    huf_lengths::lemma_tree_after(list, (n - 1) as nat);
    assert(last.low_sym == -1 && last.low_node == root);
    assert forall|i: int| 0 <= i < n implies #[trigger] d[i] == bits[list[i].1 as int] by {
        assert(lens[list[i].1 as int] == nbits[i]);
        let p = last.parent[i] as nat;
        assert(i < p < last.next && p >= n);
        huf_lengths::lemma_depth(last.parent, root, p);
        assert(huf_lengths::depth(last.parent, root, i as nat) == 1 + huf_lengths::depth(
            last.parent,
            root,
            p,
        ));
    }
    lemma_by_leaf(counts, bits, m, size);
    lemma_start_sums(list, bits, d, m, 2 * n as int);
    lemma_exactly(list, 0);
}

/// The code lengths for counts are the shortest: where no code is longer than eleven bits, any
/// other lengths of a prefix code take at least as many bits for all symbols together.
pub proof fn lemma_shortest_codes(counts: Seq<u32>, other: Seq<nat>, m: nat)
    requires
        counts.len() <= 256,
        huf_lengths::code_lengths(counts) is Some,
        forall|i: int|
            0 <= i < huf_lengths::leaves(counts, counts.len()).len()
                ==> #[trigger] huf_lengths::leaf_depths(
                huf_lengths::leaves(counts, counts.len()),
            )[i] <= 11,
        other.len() == counts.len(),
        forall|s: int| 0 <= s < counts.len() ==> #[trigger] other[s] <= m,
        coded_space(counts, other, m, counts.len() as int) <= pow2(m),
    ensures
        ({
            let lens = huf_lengths::code_lengths(counts)->Some_0;
            let bits = Seq::new(lens.len(), |s: int| lens[s] as nat);
            coded_bits(counts, bits, counts.len() as int) <= coded_bits(
                counts,
                other,
                counts.len() as int,
            )
        }),
{
    let list = huf_lengths::leaves(counts, counts.len());
    huf_lengths::lemma_leaves(counts, counts.len());
    huf_lengths::lemma_leaf_depths(list);
    crate::code_laws::lemma_short_codes_stay(huf_lengths::leaf_depths(list));
    lemma_tree_shortest(counts, other, m);
}

proof fn lemma_one_more(counts: Seq<u32>, a: Seq<nat>, b: Seq<nat>, n: nat)
    requires
        n <= counts.len(),
        a.len() == b.len() == counts.len(),
        forall|s: int| 0 <= s < counts.len() && #[trigger] counts[s] > 0 ==> a[s] <= b[s] + 1,
    ensures
        coded_bits(counts, a, n as int) <= coded_bits(counts, b, n as int) + normalize::count_sum(
            counts,
            n,
        ),
    decreases n,
{
    if n > 0 {
        lemma_one_more(counts, a, b, (n - 1) as nat);
        let c = counts[n - 1];
        let x = a[n - 1];
        let y = b[n - 1];
        assert(c * x <= c * y + c) by (nonlinear_arith)
            requires
                c == 0 || x <= y + 1,
                c >= 0,
        ;
    }
}

/// However many symbols there are, the code lengths take at most one bit for each symbol more
/// than any other lengths of a prefix code.
pub proof fn lemma_nearly_shortest_codes(counts: Seq<u32>, other: Seq<nat>, m: nat)
    requires
        counts.len() <= 256,
        huf_lengths::code_lengths(counts) is Some,
        other.len() == counts.len(),
        forall|s: int| 0 <= s < counts.len() ==> #[trigger] other[s] <= m,
        coded_space(counts, other, m, counts.len() as int) <= pow2(m),
    ensures
        ({
            let lens = huf_lengths::code_lengths(counts)->Some_0;
            let bits = Seq::new(lens.len(), |s: int| lens[s] as nat);
            coded_bits(counts, bits, counts.len() as int) <= coded_bits(
                counts,
                other,
                counts.len() as int,
            ) + normalize::count_sum(counts, counts.len())
        }),
{
    let size = counts.len();
    let list = huf_lengths::leaves(counts, size);
    let n = list.len();
    let nbits = huf_lengths::leaf_depths(list);
    let cut = huf_lengths::limited(nbits);
    let lens = huf_lengths::by_symbol(list, cut, size, n);
    let bits = Seq::new(lens.len(), |s: int| lens[s] as nat);
    huf_lengths::lemma_leaves(counts, size);
    huf_lengths::lemma_tree_lengths(list);
    huf_lengths::lemma_limited(nbits);
    huf_lengths::lemma_by_symbol(list, cut, size, n);
    huf_lengths::lemma_by_symbol(list, nbits, size, n);
    lemma_tree_shortest(counts, other, m);
    let tree = tree_lengths(counts);
    assert forall|s: int| 0 <= s < size && #[trigger] counts[s] > 0 implies bits[s] <= tree[s]
        + 1 by {
        let i = choose|i: int| 0 <= i < n && (#[trigger] list[i]).1 == s;
        assert(lens[list[i].1 as int] == cut[i]);
        assert(cut[i] <= nbits[i] + 1);
    }
    lemma_one_more(counts, bits, tree, size);
}

/// With at most twelve symbols no code is longer than eleven bits, and the code lengths are
/// the shortest.
pub proof fn lemma_shortest_codes_of_few(counts: Seq<u32>, other: Seq<nat>, m: nat)
    requires
        counts.len() <= 256,
        huf_lengths::code_lengths(counts) is Some,
        normalize::used_count(counts, counts.len()) <= 12,
        other.len() == counts.len(),
        forall|s: int| 0 <= s < counts.len() ==> #[trigger] other[s] <= m,
        coded_space(counts, other, m, counts.len() as int) <= pow2(m),
    ensures
        ({
            let lens = huf_lengths::code_lengths(counts)->Some_0;
            let bits = Seq::new(lens.len(), |s: int| lens[s] as nat);
            coded_bits(counts, bits, counts.len() as int) <= coded_bits(
                counts,
                other,
                counts.len() as int,
            )
        }),
{
    let list = huf_lengths::leaves(counts, counts.len());
    let n = list.len();
    let root = (2 * n - 2) as nat;
    let last = huf_lengths::tree_after(list, (n - 1) as nat);
    lemma_leaf_count(counts, counts.len());
    huf_lengths::lemma_tree_after(list, (n - 1) as nat);
    assert(last.low_sym == -1 && last.low_node == root);
    assert forall|i: int| 0 <= i < n implies #[trigger] huf_lengths::leaf_depths(list)[i]
        <= 11 by {
        let p = last.parent[i] as nat;
        assert(i < p < last.next && p >= n);
        huf_lengths::lemma_depth(last.parent, root, p);
        assert(huf_lengths::depth(last.parent, root, i as nat) == 1 + huf_lengths::depth(
            last.parent,
            root,
            p,
        ));
    }
    lemma_shortest_codes(counts, other, m);
}

/// The leaves are as many as the symbols that occur.
pub proof fn lemma_leaf_count(counts: Seq<u32>, n: nat)
    requires
        n <= counts.len(),
    ensures
        huf_lengths::leaves(counts, n).len() == normalize::used_count(counts, n),
    decreases n,
{
    if n > 0 {
        lemma_leaf_count(counts, (n - 1) as nat);
        let before = huf_lengths::leaves(counts, (n - 1) as nat);
        huf_lengths::lemma_leaf_position(before, counts[n - 1], before.len());
    }
}

/// Counts have code lengths exactly where two or more symbols occur.
pub proof fn lemma_lengths_exist(counts: Seq<u32>)
    ensures
        huf_lengths::code_lengths(counts) is Some <==> normalize::used_count(
            counts,
            counts.len(),
        ) >= 2,
{
    lemma_leaf_count(counts, counts.len());
}

/// Leaves that occur as often are in the order of their symbols.
proof fn lemma_equal_leaves(counts: Seq<u32>, n: nat)
    requires
        n <= counts.len() <= 256,
    ensures
        forall|i: int, j: int|
            0 <= i < j < huf_lengths::leaves(counts, n).len() && huf_lengths::leaves(counts, n)[i].0
                == huf_lengths::leaves(counts, n)[j].0 ==> (#[trigger] huf_lengths::leaves(
                counts,
                n,
            )[i]).1 < (#[trigger] huf_lengths::leaves(counts, n)[j]).1,
    decreases n,
{
    if n > 0 {
        let before = huf_lengths::leaves(counts, (n - 1) as nat);
        let list = huf_lengths::leaves(counts, n);
        let c = counts[n - 1];
        lemma_equal_leaves(counts, (n - 1) as nat);
        huf_lengths::lemma_leaves(counts, (n - 1) as nat);
        huf_lengths::lemma_leaf_position(before, c, before.len());
        huf_lengths::lemma_position_splits(before, c, before.len());
        if c > 0 {
            let p = huf_lengths::leaf_position(before, c, before.len()) as int;
            assert forall|i: int, j: int| 0 <= i < j < list.len() && list[i].0
                == list[j].0 implies (#[trigger] list[i]).1 < (#[trigger] list[j]).1 by {
                if i == p {
                    assert(list[j] == before[j - 1]);
                    assert(before[j - 1].0 < c);
                } else {
                    let x = if i < p {
                        i
                    } else {
                        i - 1
                    };
                    assert(list[i] == before[x]);
                    if j == p {
                        assert(before[x].1 < n - 1);
                    } else {
                        let y = if j < p {
                            j
                        } else {
                            j - 1
                        };
                        assert(list[j] == before[y]);
                    }
                }
            }
        }
    }
}

/// Of two symbols that occur as often, the lower has no longer code.
pub proof fn lemma_lower_symbol_shorter(counts: Seq<u32>, a: int, b: int)
    requires
        counts.len() <= 256,
        0 <= a < b < counts.len(),
        counts[a] == counts[b],
        counts[a] > 0,
    ensures
        huf_lengths::code_lengths(counts) matches Some(lens) && lens[a] <= lens[b],
{
    let list = huf_lengths::leaves(counts, counts.len());
    let n = list.len();
    let nbits = huf_lengths::limited(huf_lengths::leaf_depths(list));
    huf_lengths::lemma_leaves(counts, counts.len());
    lemma_equal_leaves(counts, counts.len());
    let i = choose|i: int| 0 <= i < n && (#[trigger] list[i]).1 == a;
    let j = choose|j: int| 0 <= j < n && (#[trigger] list[j]).1 == b;
    assert(list[i].0 == counts[a] && list[j].0 == counts[b]);
    if j < i {
        assert(list[j].1 < list[i].1);
    }
    assert(i < j);
    huf_lengths::lemma_tree_lengths(list);
    huf_lengths::lemma_limited(huf_lengths::leaf_depths(list));
    assert(nbits[i] <= nbits[j]);
    huf_lengths::lemma_by_symbol(list, nbits, counts.len(), n);
    let lens = huf_lengths::by_symbol(list, nbits, counts.len(), n);
    assert(lens[list[i].1 as int] == nbits[i]);
    assert(lens[list[j].1 as int] == nbits[j]);
}

} // verus!
