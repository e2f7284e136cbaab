//! Code lengths for Huffman codes of at most eleven bits.
use crate::bits;
use crate::bits::pow2_u32;
use crate::huffman;
use vstd::arithmetic::power2::*;
use vstd::prelude::*;

verus! {

pub const MAX_CODE_BITS: u8 = 11;

// ---------------------------------------------------------------------------
// Leaves
// ---------------------------------------------------------------------------

/// Where `x` goes among the first `k` leaves, which are sorted by falling count: after
/// those that occur as often.
pub open spec fn leaf_position(list: Seq<(u32, u8)>, count: u32, k: nat) -> nat
    decreases k,
{
    if k > 0 && list[k - 1].0 < count {
        leaf_position(list, count, (k - 1) as nat)
    } else {
        k
    }
}

/// The symbols below `n` that occur, with their counts, sorted by falling count.
pub open spec fn leaves(counts: Seq<u32>, n: nat) -> Seq<(u32, u8)>
    decreases n,
{
    if n == 0 {
        Seq::empty()
    } else {
        let list = leaves(counts, (n - 1) as nat);
        let c = counts[n - 1];
        if c == 0 {
            list
        } else {
            list.insert(leaf_position(list, c, list.len()) as int, (c, (n - 1) as u8))
        }
    }
}

pub proof fn lemma_leaf_position(list: Seq<(u32, u8)>, count: u32, k: nat)
    ensures
        leaf_position(list, count, k) <= k,
    decreases k,
{
    if k > 0 && list[k - 1].0 < count {
        lemma_leaf_position(list, count, (k - 1) as nat);
    }
}

/// The leaves are the symbols that occur, each once, with its count.
pub proof fn lemma_leaves(counts: Seq<u32>, n: nat)
    requires
        n <= counts.len(),
        n <= 256,
    ensures
        leaves(counts, n).len() <= n,
        forall|i: int|
            0 <= i < leaves(counts, n).len() ==> {
                let x = #[trigger] leaves(counts, n)[i];
                x.1 < n && x.0 == counts[x.1 as int] && x.0 > 0
            },
        forall|i: int, j: int|
            0 <= i < j < leaves(counts, n).len() ==> (#[trigger] leaves(counts, n)[i]).1 != (
            #[trigger] leaves(counts, n)[j]).1,
        forall|s: int|
            0 <= s < n && #[trigger] counts[s] > 0 ==> exists|i: int|
                0 <= i < leaves(counts, n).len() && (#[trigger] leaves(counts, n)[i]).1 == s,
    decreases n,
{
    if n > 0 {
        let old_list = leaves(counts, (n - 1) as nat);
        let list = leaves(counts, n);
        lemma_leaves(counts, (n - 1) as nat);
        let c = counts[n - 1];
        if c > 0 {
            let p = leaf_position(old_list, c, old_list.len()) as int;
            lemma_leaf_position(old_list, c, old_list.len());
            assert forall|i: int| 0 <= i < list.len() implies {
                let x = #[trigger] list[i];
                x.1 < n && x.0 == counts[x.1 as int] && x.0 > 0
            } by {
                if i < p {
                    assert(list[i] == old_list[i]);
                } else if i > p {
                    assert(list[i] == old_list[i - 1]);
                }
            }
            assert forall|i: int, j: int| 0 <= i < j < list.len() implies (#[trigger] list[i]).1
                != (#[trigger] list[j]).1 by {
                let oi = if i < p {
                    i
                } else {
                    i - 1
                };
                let oj = if j < p {
                    j
                } else {
                    j - 1
                };
                if i != p {
                    assert(list[i] == old_list[oi]);
                }
                if j != p {
                    assert(list[j] == old_list[oj]);
                }
            }
            assert forall|s: int| 0 <= s < n && #[trigger] counts[s] > 0 implies exists|i: int|
                0 <= i < list.len() && (#[trigger] list[i]).1 == s by {
                if s == n - 1 {
                    assert(list[p].1 == s);
                } else {
                    let i = choose|i: int|
                        0 <= i < old_list.len() && (#[trigger] old_list[i]).1 == s;
                    if i < p {
                        assert(list[i] == old_list[i]);
                    } else {
                        assert(list[i + 1] == old_list[i]);
                    }
                }
            }
        } else {
            assert forall|s: int| 0 <= s < n && #[trigger] counts[s] > 0 implies exists|i: int|
                0 <= i < list.len() && (#[trigger] list[i]).1 == s by {
                assert(s < n - 1);
            }
        }
    }
}

/// Sorts the symbols that occur by falling count.
fn sort_leaves(counts: &[u32]) -> (list: Vec<(u32, u8)>)
    requires
        counts@.len() <= 256,
    ensures
        list@ == leaves(counts@, counts@.len()),
{
    let mut list: Vec<(u32, u8)> = Vec::new();
    let mut s: usize = 0;
    assert(list@ =~= leaves(counts@, 0));
    while s < counts.len()
        invariant
            s <= counts@.len(),
            counts@.len() <= 256,
            list@ == leaves(counts@, s as nat),
        decreases counts@.len() - s,
    {
        let c = counts[s];
        if c > 0 {
            let mut k: usize = list.len();
            while k > 0 && list[k - 1].0 < c
                invariant
                    k <= list@.len(),
                    leaf_position(list@, c, list@.len()) == leaf_position(list@, c, k as nat),
                decreases k,
            {
                k = k - 1;
            }
            list.insert(k, (c, s as u8));
        }
        s = s + 1;
    }
    list
}

// ---------------------------------------------------------------------------
// Tree
// ---------------------------------------------------------------------------

/// A tree under construction.  The leaves come first, then the inner nodes in the
/// order in which they are made.  The leaves up to `low_sym` and the inner nodes from
/// `low_node` on have no parent yet.
#[verifier::ext_equal]
pub struct Tree {
    pub count: Seq<u64>,
    pub parent: Seq<u32>,
    pub low_sym: int,
    pub low_node: nat,
    pub next: nat,
}

/// What stands for the count of an inner node before it is made.
pub const NO_COUNT: u64 = 0x7FFF_FFFF_FFFF_FFFF;

/// The leaves alone.
pub open spec fn tree_start(list: Seq<(u32, u8)>) -> Tree {
    let n = list.len();
    Tree {
        count: Seq::new(
            2 * n,
            |i: int|
                if i < n {
                    list[i].0 as u64
                } else {
                    NO_COUNT
                },
        ),
        parent: Seq::new(2 * n, |i: int| 0u32),
        low_sym: n - 1,
        low_node: n,
        next: n,
    }
}

impl Tree {
    /// The rarest leaf without a parent is taken before the first inner node without
    /// one if it is rarer.
    pub open spec fn takes_leaf(self) -> bool {
        self.low_sym >= 0 && self.count[self.low_sym] < self.count[self.low_node as int]
    }

    /// The node that is taken next.
    pub open spec fn pick(self) -> int {
        if self.takes_leaf() {
            self.low_sym
        } else {
            self.low_node as int
        }
    }

    pub open spec fn after_pick(self) -> Tree {
        if self.takes_leaf() {
            Tree { low_sym: self.low_sym - 1, ..self }
        } else {
            Tree { low_node: self.low_node + 1, ..self }
        }
    }

    /// Makes an inner node of the next two nodes.
    pub open spec fn merge(self) -> Tree {
        let a = self.pick();
        let rest = self.after_pick();
        let b = rest.pick();
        let rest2 = rest.after_pick();
        Tree {
            count: rest2.count.update(
                self.next as int,
                (self.count[a] + self.count[b]) as u64,
            ),
            parent: rest2.parent.update(a, self.next as u32).update(b, self.next as u32),
            next: self.next + 1,
            ..rest2
        }
    }

    /// The number of nodes without a parent.
    pub open spec fn open_nodes(self) -> int {
        self.low_sym + 1 + self.next - self.low_node
    }
}

/// The tree after `k` inner nodes are made.
pub open spec fn tree_after(list: Seq<(u32, u8)>, k: nat) -> Tree
    decreases k,
{
    if k == 0 {
        tree_start(list)
    } else {
        tree_after(list, (k - 1) as nat).merge()
    }
}

/// How far node `i` is below `root`.
pub open spec fn depth(parent: Seq<u32>, root: nat, i: nat) -> nat
    decreases root - i,
{
    if i >= root || parent[i as int] <= i || parent[i as int] > root {
        0
    } else {
        1 + depth(parent, root, parent[i as int] as nat)
    }
}

/// The depth of each leaf in the finished tree.
pub open spec fn leaf_depths(list: Seq<(u32, u8)>) -> Seq<u8> {
    let n = list.len();
    let t = tree_after(list, (n - 1) as nat);
    Seq::new(n, |i: int| depth(t.parent, (2 * n - 2) as nat, i as nat) as u8)
}

/// The sum of `s` from `a` to `b`.
pub open spec fn range_sum(s: Seq<u64>, a: int, b: int) -> int
    decreases b - a,
{
    if a >= b {
        0
    } else {
        range_sum(s, a, b - 1) + s[b - 1]
    }
}

proof fn lemma_range_first(s: Seq<u64>, a: int, b: int)
    requires
        a < b,
    ensures
        range_sum(s, a, b) == s[a] + range_sum(s, a + 1, b),
    decreases b - a,
{
    if a + 1 < b {
        lemma_range_first(s, a, b - 1);
    } else {
        assert(range_sum(s, a, b - 1) == 0);
        assert(range_sum(s, a + 1, b) == 0);
    }
}

proof fn lemma_range_same(s: Seq<u64>, t: Seq<u64>, a: int, b: int)
    requires
        forall|i: int| a <= i < b ==> s[i] == t[i],
    ensures
        range_sum(s, a, b) == range_sum(t, a, b),
    decreases b - a,
{
    if a < b {
        lemma_range_same(s, t, a, b - 1);
    }
}

pub proof fn lemma_range_bound(s: Seq<u64>, a: int, b: int)
    ensures
        range_sum(s, a, b) >= 0,
        forall|i: int| a <= i < b ==> #[trigger] s[i] <= range_sum(s, a, b),
    decreases b - a,
{
    if a < b {
        lemma_range_bound(s, a, b - 1);
    }
}

impl Tree {
    /// What holds of a tree of `n` leaves under construction.
    pub open spec fn wf(self, n: nat) -> bool {
        &&& 2 <= n <= 256
        &&& self.count.len() == 2 * n
        &&& self.parent.len() == 2 * n
        &&& -1 <= self.low_sym < n
        &&& n <= self.low_node <= self.next <= 2 * n - 1
        &&& self.open_nodes() == 2 * n - self.next
        &&& self.low_node < self.next || self.next == n
        &&& forall|i: int| self.next <= i < 2 * n ==> #[trigger] self.count[i] == NO_COUNT
        &&& range_sum(self.count, 0, self.low_sym + 1) + range_sum(
            self.count,
            self.low_node as int,
            self.next as int,
        ) <= 0x100_0000_0000
        &&& forall|i: int|
            (self.low_sym < i < n || n <= i < self.low_node) ==> i < #[trigger] self.parent[i]
                < self.next && self.parent[i] >= n
    }

    /// A node can be taken, and it was made.
    pub proof fn lemma_pick(self, n: nat)
        requires
            2 <= n <= 256,
            self.count.len() == 2 * n,
            -1 <= self.low_sym < n,
            n <= self.low_node <= self.next <= 2 * n - 1,
            self.open_nodes() >= 1,
            forall|i: int| self.next <= i < 2 * n ==> #[trigger] self.count[i] == NO_COUNT,
            range_sum(self.count, 0, self.low_sym + 1) + range_sum(
                self.count,
                self.low_node as int,
                self.next as int,
            ) <= 0x100_0000_0000,
        ensures
            0 <= self.pick() < self.next,
            !self.takes_leaf() ==> self.low_node < self.next,
            self.after_pick().open_nodes() == self.open_nodes() - 1,
            self.count[self.pick()] + range_sum(self.count, 0, self.after_pick().low_sym + 1)
                + range_sum(self.count, self.after_pick().low_node as int, self.next as int)
                == range_sum(self.count, 0, self.low_sym + 1) + range_sum(
                self.count,
                self.low_node as int,
                self.next as int,
            ),
            range_sum(self.count, 0, self.after_pick().low_sym + 1) >= 0,
            range_sum(self.count, self.after_pick().low_node as int, self.next as int) >= 0,
    {
        lemma_range_bound(self.count, 0, self.low_sym + 1);
        lemma_range_bound(self.count, self.low_node as int, self.next as int);
        if self.low_sym >= 0 {
            assert(self.count[self.low_sym] <= range_sum(self.count, 0, self.low_sym + 1));
        }
        if self.low_node == self.next {
            assert(self.count[self.low_node as int] == NO_COUNT);
        }
        if !self.takes_leaf() {
            lemma_range_first(self.count, self.low_node as int, self.next as int);
        }
        lemma_range_bound(self.count, 0, self.after_pick().low_sym + 1);
        lemma_range_bound(self.count, self.after_pick().low_node as int, self.next as int);
    }

    pub proof fn lemma_merge(self, n: nat)
        requires
            self.wf(n),
            self.next < 2 * n - 1,
        ensures
            self.merge().wf(n),
            0 <= self.pick() < self.next,
            0 <= self.after_pick().pick() < self.next,
            self.count[self.pick()] + self.count[self.after_pick().pick()] <= 0x100_0000_0000,
            self.pick() != self.after_pick().pick(),
    {
        self.lemma_pick(n);
        let rest = self.after_pick();
        rest.lemma_pick(n);
        let rest2 = rest.after_pick();
        let m = self.merge();
        lemma_range_same(self.count, m.count, 0, rest2.low_sym + 1);
        lemma_range_same(self.count, m.count, rest2.low_node as int, self.next as int);
        assert(m.next - 1 == self.next);
        assert(range_sum(m.count, m.low_node as int, m.next as int) == range_sum(
            m.count,
            m.low_node as int,
            self.next as int,
        ) + m.count[self.next as int]);
    }
}

pub proof fn lemma_tree_after(list: Seq<(u32, u8)>, k: nat)
    requires
        2 <= list.len() <= 256,
        k < list.len(),
    ensures
        tree_after(list, k).wf(list.len()),
        tree_after(list, k).next == list.len() + k,
    decreases k,
{
    let n = list.len();
    if k == 0 {
        let t = tree_start(list);
        lemma_start_sum(list, n);
        assert(range_sum(t.count, n as int, n as int) == 0);
    } else {
        lemma_tree_after(list, (k - 1) as nat);
        tree_after(list, (k - 1) as nat).lemma_merge(n);
    }
}

proof fn lemma_start_sum(list: Seq<(u32, u8)>, k: nat)
    requires
        k <= list.len(),
    ensures
        range_sum(tree_start(list).count, 0, k as int) <= k * 0x1_0000_0000,
    decreases k,
{
    if k > 0 {
        lemma_start_sum(list, (k - 1) as nat);
    }
}

/// Depths are at most the distance to the root.
pub proof fn lemma_depth(parent: Seq<u32>, root: nat, i: nat)
    requires
        i <= root,
    ensures
        depth(parent, root, i) <= root - i,
    decreases root - i,
{
    if i < root && parent[i as int] > i && parent[i as int] <= root {
        lemma_depth(parent, root, parent[i as int] as nat);
    }
}

/// The leaves of the finished tree are below its root.
pub proof fn lemma_leaf_depths(list: Seq<(u32, u8)>)
    requires
        2 <= list.len() <= 256,
    ensures
        leaf_depths(list).len() == list.len(),
        forall|i: int| 0 <= i < list.len() ==> #[trigger] leaf_depths(list)[i] >= 1,
{
    let n = list.len();
    let root = (2 * n - 2) as nat;
    let t = tree_after(list, (n - 1) as nat);
    lemma_tree_after(list, (n - 1) as nat);
    assert(t.low_sym == -1 && t.low_node == root);
    assert forall|i: int| 0 <= i < n implies #[trigger] leaf_depths(list)[i] >= 1 by {
        let p = t.parent[i] as nat;
        assert(i < p < t.next && p >= n);
        lemma_depth(t.parent, root, p);
        assert(depth(t.parent, root, i as nat) == 1 + depth(t.parent, root, p));
    }
}

/// Builds a Huffman tree; gives the depth of each leaf.
fn tree_depths(list: &Vec<(u32, u8)>) -> (nbits: Vec<u8>)
    requires
        2 <= list@.len() <= 256,
    ensures
        nbits@ == leaf_depths(list@),
{
    let n = list.len();
    let mut node_count: Vec<u64> = vec![NO_COUNT; 2 * n];
    let mut node_parent: Vec<u32> = vec![0u32; 2 * n];
    let mut i: usize = 0;
    while i < n
        invariant
            i <= n,
            n == list@.len(),
            n <= 256,
            node_count@.len() == 2 * n,
            forall|k: int| 0 <= k < i ==> #[trigger] node_count@[k] == list@[k].0,
            forall|k: int| i <= k < 2 * n ==> #[trigger] node_count@[k] == NO_COUNT,
        decreases n - i,
    {
        node_count[i] = list[i].0 as u64;
        i = i + 1;
    }
    let mut low_sym: usize = n;
    let mut low_node: usize = n;
    let mut next: usize = n;
    let ghost start = tree_start(list@);
    assert(node_count@ =~= start.count);
    assert(node_parent@ =~= start.parent);
    while next < 2 * n - 1
        invariant
            2 <= n <= 256,
            n == list@.len(),
            n <= next <= 2 * n - 1,
            low_sym <= n,
            tree_after(list@, (next - n) as nat) == (Tree {
                count: node_count@,
                parent: node_parent@,
                low_sym: low_sym - 1,
                low_node: low_node as nat,
                next: next as nat,
            }),
        decreases 2 * n - 1 - next,
    {
        let ghost t = tree_after(list@, (next - n) as nat);
        proof {
            lemma_tree_after(list@, (next - n) as nat);
            t.lemma_merge(n as nat);
            t.lemma_pick(n as nat);
            t.after_pick().lemma_pick(n as nat);
        }
        let n1 = if low_sym > 0 && node_count[low_sym - 1] < node_count[low_node] {
            low_sym = low_sym - 1;
            low_sym
        } else {
            low_node = low_node + 1;
            low_node - 1
        };
        assert(n1 == t.pick());
        let n2 = if low_sym > 0 && node_count[low_sym - 1] < node_count[low_node] {
            low_sym = low_sym - 1;
            low_sym
        } else {
            low_node = low_node + 1;
            low_node - 1
        };
        assert(n2 == t.after_pick().pick());
        node_count[next] = node_count[n1] + node_count[n2];
        node_parent[n1] = next as u32;
        node_parent[n2] = next as u32;
        next = next + 1;
        assert(tree_after(list@, (next - n) as nat) =~= t.merge());
    }
    let root = 2 * n - 2;
    let ghost t = tree_after(list@, (n - 1) as nat);
    proof {
        lemma_tree_after(list@, (n - 1) as nat);
        assert(next - n == n - 1);
        assert(t.low_sym == -1 && t.low_node == root);
    }
    let mut depths: Vec<u8> = vec![0u8; 2 * n];
    let mut i: usize = root;
    assert(depth(node_parent@, root as nat, root as nat) == 0);
    while i > 0
        invariant
            i <= root,
            root == 2 * n - 2,
            2 <= n <= 256,
            depths@.len() == 2 * n,
            node_parent@.len() == 2 * n,
            t.wf(n as nat),
            t.low_sym == -1,
            t.low_node == root,
            t.next == root + 1,
            t.parent == node_parent@,
            forall|k: int|
                i <= k <= root ==> #[trigger] depths@[k] == depth(
                    node_parent@,
                    root as nat,
                    k as nat,
                ),
        decreases i,
    {
        i = i - 1;
        let p = node_parent[i] as usize;
        proof {
            assert(i < t.parent[i as int] < t.next && t.parent[i as int] >= n);
            lemma_depth(node_parent@, root as nat, p as nat);
            assert(depths@[p as int] == depth(node_parent@, root as nat, p as nat));
        }
        depths[i] = depths[p] + 1;
    }
    depths.truncate(n);
    assert(depths@ =~= leaf_depths(list@));
    depths
}

// ---------------------------------------------------------------------------
// Limit
// ---------------------------------------------------------------------------

/// The largest of the first `k` lengths.
pub open spec fn longest(nbits: Seq<u8>, k: nat) -> nat
    decreases k,
{
    if k == 0 {
        0
    } else {
        let m = longest(nbits, (k - 1) as nat);
        if nbits[k - 1] > m {
            nbits[k - 1] as nat
        } else {
            m
        }
    }
}

/// The code space, of `2^max`, of the first `k` lengths.
pub open spec fn lengths_space(nbits: Seq<u8>, max: nat, k: nat) -> nat
    decreases k,
{
    if k == 0 {
        0
    } else {
        lengths_space(nbits, max, (k - 1) as nat) + pow2((max - nbits[k - 1]) as nat)
    }
}

/// Lengths cut to eleven bits.
pub open spec fn cut(nbits: Seq<u8>) -> Seq<u8> {
    Seq::new(
        nbits.len(),
        |i: int|
            if nbits[i] > 11 {
                11u8
            } else {
                nbits[i]
            },
    )
}

/// Saves code space by making codes shorter than eleven bits one bit longer, from the last
/// of the first `k` symbols back to the first, until `cost` is saved.
pub open spec fn lengthen(nbits: Seq<u8>, cost: int, k: nat) -> Seq<u8>
    decreases k,
{
    if cost <= 0 || k == 0 {
        nbits
    } else if nbits[k - 1] < 11 {
        lengthen(
            nbits.update(k - 1, (nbits[k - 1] + 1) as u8),
            cost - pow2((10 - nbits[k - 1]) as nat),
            (k - 1) as nat,
        )
    } else {
        lengthen(nbits, cost, (k - 1) as nat)
    }
}

/// Where the run of codes begins that ends with symbol `k` and has its length.
pub open spec fn run_start(nbits: Seq<u8>, k: nat) -> nat
    decreases k,
{
    if k > 0 && nbits[k - 1] == nbits[k as int] {
        run_start(nbits, (k - 1) as nat)
    } else {
        k
    }
}

/// Uses code space that is left over by making the first of the longest codes one bit
/// shorter, until `room` is used.
pub open spec fn shorten(nbits: Seq<u8>, room: int) -> Seq<u8>
    decreases
            if room > 0 {
                room
            } else {
                0
            },
{
    if room <= 0 {
        nbits
    } else {
        proof {
            lemma_pow2_pos((11 - nbits[run_start(nbits, (nbits.len() - 1) as nat) as int]) as nat);
        }
        let i = run_start(nbits, (nbits.len() - 1) as nat) as int;
        shorten(nbits.update(i, (nbits[i] - 1) as u8), room - pow2((11 - nbits[i]) as nat))
    }
}

/// Lengths of at most eleven bits.  Where codes must be cut, the rarest symbols pay for it,
/// and what they pay too much goes to the most frequent of those with the longest codes.
pub open spec fn limited(nbits: Seq<u8>) -> Seq<u8> {
    let n = nbits.len();
    if longest(nbits, n) <= 11 {
        nbits
    } else {
        let long = lengthen(cut(nbits), lengths_space(cut(nbits), 11, n) - 2048, n);
        shorten(long, 2048 - lengths_space(long, 11, n))
    }
}

pub proof fn lemma_longest(nbits: Seq<u8>, k: nat)
    requires
        k <= nbits.len(),
    ensures
        longest(nbits, k) <= 255,
        forall|i: int| 0 <= i < k ==> #[trigger] nbits[i] <= longest(nbits, k),
        k > 0 ==> exists|i: int| 0 <= i < k && #[trigger] nbits[i] == longest(nbits, k),
    decreases k,
{
    if k > 0 {
        lemma_longest(nbits, (k - 1) as nat);
        if nbits[k - 1] > longest(nbits, (k - 1) as nat) {
            assert(nbits[k - 1] == longest(nbits, k));
        } else if k == 1 {
            assert(nbits[0] == longest(nbits, 1));
        } else {
            let i = choose|i: int|
                0 <= i < k - 1 && #[trigger] nbits[i] == longest(nbits, (k - 1) as nat);
            assert(nbits[i] == longest(nbits, k));
        }
    }
}

/// Lengths that do not fall from one symbol to the next.
pub open spec fn rising(nbits: Seq<u8>) -> bool {
    forall|i: int, j: int| 0 <= i <= j < nbits.len() ==> #[trigger] nbits[i] <= #[trigger] nbits[j]
}

/// Lengths of one to eleven bits.
pub open spec fn in_range(nbits: Seq<u8>) -> bool {
    forall|i: int| 0 <= i < nbits.len() ==> 1 <= #[trigger] nbits[i] <= 11
}

/// The code space, of 2048, of those of the first `k` codes that are shorter than eleven bits.
pub open spec fn short_space(nbits: Seq<u8>, k: nat) -> nat
    decreases k,
{
    if k == 0 {
        0
    } else {
        short_space(nbits, (k - 1) as nat) + (if nbits[k - 1] < 11 {
            pow2((11 - nbits[k - 1]) as nat)
        } else {
            0
        })
    }
}

/// Lengths of which those from the `k`th on are one bit longer, where that can be.
spec fn mixed(nbits: Seq<u8>, k: nat) -> Seq<u8> {
    Seq::new(
        nbits.len(),
        |i: int|
            if i < k || nbits[i] >= 11 {
                nbits[i]
            } else {
                (nbits[i] + 1) as u8
            },
    )
}

/// The code space after one length has changed.
proof fn lemma_changed_space(nbits: Seq<u8>, i: int, v: u8, max: nat, k: nat)
    requires
        0 <= i < nbits.len(),
        k <= nbits.len(),
    ensures
        lengths_space(nbits.update(i, v), max, k) + (if i < k {
            pow2((max - nbits[i]) as nat)
        } else {
            0
        }) == lengths_space(nbits, max, k) + (if i < k {
            pow2((max - v) as nat)
        } else {
            0
        }),
    decreases k,
{
    if k > 0 {
        lemma_changed_space(nbits, i, v, max, (k - 1) as nat);
    }
}

/// Where all codes are one bit longer, the short ones have half their space.
proof fn lemma_mixed_space(nbits: Seq<u8>, k: nat)
    requires
        in_range(nbits),
        k <= nbits.len(),
    ensures
        2 * lengths_space(mixed(nbits, 0), 11, k) <= short_space(nbits, k) + 2 * k,
    decreases k,
{
    if k > 0 {
        lemma_mixed_space(nbits, (k - 1) as nat);
        assert(1 <= nbits[k - 1] <= 11);
        if nbits[k - 1] < 11 {
            lemma_pow2_unfold((11 - nbits[k - 1]) as nat);
        } else {
            lemma2_to64();
        }
    }
}

/// Codes are made longer until they fit the code space.
proof fn lemma_lengthen(nbits: Seq<u8>, cost: int, k: nat) -> (j: nat)
    requires
        in_range(nbits),
        nbits.len() <= 256,
        k <= nbits.len(),
        short_space(nbits, nbits.len()) <= 2048,
        cost == lengths_space(mixed(nbits, k), 11, nbits.len()) - 2048,
    ensures
        j <= k,
        lengthen(mixed(nbits, k), cost, k) == mixed(nbits, j),
        lengths_space(mixed(nbits, j), 11, nbits.len()) <= 2048,
    decreases k,
{
    let m = mixed(nbits, k);
    if cost <= 0 {
        k
    } else if k == 0 {
        lemma_mixed_space(nbits, nbits.len());
        k
    } else {
        let next = mixed(nbits, (k - 1) as nat);
        let b = nbits[k - 1];
        assert(1 <= b <= 11);
        assert(m[k - 1] == b);
        if b < 11 {
            assert(next =~= m.update(k - 1, (b + 1) as u8));
            lemma_changed_space(m, k - 1, (b + 1) as u8, 11, nbits.len());
            lemma_pow2_unfold((11 - b) as nat);
        } else {
            assert(next =~= m);
        }
        lemma_lengthen(
            nbits,
            lengths_space(next, 11, nbits.len()) - 2048,
            (k - 1) as nat,
        )
    }
}

/// Some codes one bit longer than rising lengths, the later ones, are rising lengths.
proof fn lemma_mixed_rising(nbits: Seq<u8>, k: nat)
    requires
        rising(nbits),
        in_range(nbits),
    ensures
        rising(mixed(nbits, k)),
        in_range(mixed(nbits, k)),
{
    let m = mixed(nbits, k);
    assert forall|i: int, j: int| 0 <= i <= j < m.len() implies #[trigger] m[i]
        <= #[trigger] m[j] by {
        assert(nbits[i] <= nbits[j]);
        assert(1 <= nbits[i] <= 11);
    }
    assert forall|i: int| 0 <= i < m.len() implies 1 <= #[trigger] m[i] <= 11 by {
        assert(1 <= nbits[i] <= 11);
    }
}

proof fn lemma_run_start(nbits: Seq<u8>, k: nat)
    requires
        k < nbits.len(),
    ensures
        run_start(nbits, k) <= k,
        nbits[run_start(nbits, k) as int] == nbits[k as int],
        run_start(nbits, k) > 0 ==> nbits[run_start(nbits, k) - 1] != nbits[k as int],
    decreases k,
{
    if k > 0 && nbits[k - 1] == nbits[k as int] {
        lemma_run_start(nbits, (k - 1) as nat);
    }
}

/// The code space in smaller units.
proof fn lemma_space_units(nbits: Seq<u8>, max: nat, k: nat)
    requires
        k <= nbits.len(),
        max <= 11,
        forall|i: int| 0 <= i < nbits.len() ==> #[trigger] nbits[i] <= max,
    ensures
        lengths_space(nbits, 11, k) == lengths_space(nbits, max, k) * pow2((11 - max) as nat),
    decreases k,
{
    let u = pow2((11 - max) as nat);
    if k > 0 {
        lemma_space_units(nbits, max, (k - 1) as nat);
        assert(nbits[k - 1] <= max);
        lemma_pow2_adds((max - nbits[k - 1]) as nat, (11 - max) as nat);
        let before = lengths_space(nbits, max, (k - 1) as nat);
        let own = pow2((max - nbits[k - 1]) as nat);
        assert((before + own) * u == before * u + own * u) by (nonlinear_arith);
    } else {
        assert(0 * u == 0) by (nonlinear_arith);
    }
}

proof fn lemma_ones_space(nbits: Seq<u8>, k: nat)
    requires
        k <= nbits.len(),
        forall|i: int| 0 <= i < nbits.len() ==> #[trigger] nbits[i] == 1,
    ensures
        lengths_space(nbits, 11, k) == 1024 * k,
    decreases k,
{
    if k > 0 {
        lemma_ones_space(nbits, (k - 1) as nat);
        assert(nbits[k - 1] == 1);
        lemma2_to64();
    }
}

/// What the first of the longest codes gets by a shorter code is left over.
proof fn lemma_shorten_step(nbits: Seq<u8>, room: int)
    requires
        nbits.len() >= 2,
        rising(nbits),
        in_range(nbits),
        room == 2048 - lengths_space(nbits, 11, nbits.len()),
        room > 0,
    ensures
        ({
            let i = run_start(nbits, (nbits.len() - 1) as nat) as int;
            let next = nbits.update(i, (nbits[i] - 1) as u8);
            &&& 0 <= i < nbits.len()
            &&& 2 <= nbits[i]
            &&& rising(next)
            &&& in_range(next)
            &&& pow2((11 - nbits[i]) as nat) <= room
            &&& room - pow2((11 - nbits[i]) as nat) == 2048 - lengths_space(next, 11, next.len())
        }),
{
    let n = nbits.len();
    let i = run_start(nbits, (n - 1) as nat) as int;
    let top = nbits[n - 1];
    let next = nbits.update(i, (nbits[i] - 1) as u8);
    lemma_run_start(nbits, (n - 1) as nat);
    assert(1 <= top <= 11);
    assert forall|k: int| 0 <= k < n implies #[trigger] nbits[k] <= top by {
        assert(nbits[k] <= nbits[n - 1]);
    }
    if top == 1 {
        assert forall|k: int| 0 <= k < n implies #[trigger] nbits[k] == 1 by {
            assert(1 <= nbits[k] <= top);
        }
        lemma_ones_space(nbits, n);
    }
    lemma_space_units(nbits, top as nat, n);
    lemma_pow2_adds(top as nat, (11 - top) as nat);
    lemma2_to64();
    let u = pow2((11 - top) as nat);
    let space = lengths_space(nbits, top as nat, n);
    let whole = pow2(top as nat);
    assert(u <= room) by (nonlinear_arith)
        requires
            room == whole * u - space * u,
            room > 0,
    ;
    lemma_changed_space(nbits, i, (top - 1) as u8, 11, n);
    lemma_pow2_unfold((12 - top) as nat);
    assert forall|a: int, b: int| 0 <= a <= b < n implies #[trigger] next[a]
        <= #[trigger] next[b] by {
        assert(nbits[a] <= nbits[b]);
        if b == i && a < i {
            assert(nbits[a] <= nbits[i - 1]);
            assert(nbits[i - 1] <= nbits[i]);
        }
    }
    assert forall|a: int| 0 <= a < n implies 1 <= #[trigger] next[a] <= 11 by {
        assert(1 <= nbits[a] <= 11);
    }
}

/// Codes are made shorter until they fill the code space.
proof fn lemma_shorten(nbits: Seq<u8>, room: int)
    requires
        nbits.len() >= 2,
        rising(nbits),
        in_range(nbits),
        room == 2048 - lengths_space(nbits, 11, nbits.len()),
        room >= 0,
    ensures
        shorten(nbits, room).len() == nbits.len(),
        rising(shorten(nbits, room)),
        in_range(shorten(nbits, room)),
        lengths_space(shorten(nbits, room), 11, nbits.len()) == 2048,
        forall|i: int| 0 <= i < nbits.len() ==> #[trigger] shorten(nbits, room)[i] <= nbits[i],
    decreases room,
{
    if room > 0 {
        let i = run_start(nbits, (nbits.len() - 1) as nat) as int;
        let next = nbits.update(i, (nbits[i] - 1) as u8);
        lemma_shorten_step(nbits, room);
        lemma_pow2_pos((11 - nbits[i]) as nat);
        lemma_shorten(next, room - pow2((11 - nbits[i]) as nat));
    }
}

/// Rising lengths that are cut are rising lengths of one to eleven bits.
proof fn lemma_cut(nbits: Seq<u8>)
    requires
        rising(nbits),
        forall|i: int| 0 <= i < nbits.len() ==> #[trigger] nbits[i] >= 1,
    ensures
        rising(cut(nbits)),
        in_range(cut(nbits)),
        cut(nbits) == mixed(cut(nbits), nbits.len()),
{
    let c = cut(nbits);
    assert forall|i: int, j: int| 0 <= i <= j < c.len() implies #[trigger] c[i]
        <= #[trigger] c[j] by {
        assert(nbits[i] <= nbits[j]);
    }
    assert forall|i: int| 0 <= i < c.len() implies 1 <= #[trigger] c[i] <= 11 by {
        assert(nbits[i] >= 1);
    }
    assert(c =~= mixed(c, nbits.len()));
}

/// Limited lengths are rising lengths of one to eleven bits; where something was cut, they
/// fill the code space.
pub proof fn lemma_limited(nbits: Seq<u8>)
    requires
        2 <= nbits.len() <= 256,
        rising(nbits),
        short_space(cut(nbits), nbits.len()) <= 2048,
        forall|k: int| 0 <= k < nbits.len() ==> #[trigger] nbits[k] >= 1,
    ensures
        limited(nbits).len() == nbits.len(),
        rising(limited(nbits)),
        in_range(limited(nbits)),
        longest(nbits, nbits.len()) > 11 ==> lengths_space(limited(nbits), 11, nbits.len())
            == 2048,
        forall|i: int| 0 <= i < nbits.len() ==> #[trigger] limited(nbits)[i] <= nbits[i] + 1,
{
    let n = nbits.len();
    lemma_longest(nbits, n);
    if longest(nbits, n) <= 11 {
        assert forall|k: int| 0 <= k < n implies 1 <= #[trigger] limited(nbits)[k] <= 11 by {
            assert(1 <= nbits[k] <= longest(nbits, n));
        }
    } else {
        let short = cut(nbits);
        lemma_cut(nbits);
        let j = lemma_lengthen(short, lengths_space(short, 11, n) - 2048, n);
        lemma_mixed_rising(short, j);
        let long = mixed(short, j);
        lemma_shorten(long, 2048 - lengths_space(long, 11, n));
    }
}

/// The largest length.
pub fn longest_code(nbits: &[u8]) -> (m: u8)
    ensures
        m == longest(nbits@, nbits@.len()),
        forall|i: int| 0 <= i < nbits@.len() ==> #[trigger] nbits@[i] <= m,
{
    let mut m: u8 = 0;
    let mut i: usize = 0;
    while i < nbits.len()
        invariant
            i <= nbits@.len(),
            m == longest(nbits@, i as nat),
            forall|k: int| 0 <= k < i ==> #[trigger] nbits@[k] <= m,
        decreases nbits@.len() - i,
    {
        if nbits[i] > m {
            m = nbits[i];
        }
        i = i + 1;
    }
    m
}

/// The code space, of 2048, of lengths of at most eleven bits.
fn space_of(nbits: &Vec<u8>) -> (space: u32)
    requires
        nbits@.len() <= 256,
        in_range(nbits@),
    ensures
        space == lengths_space(nbits@, 11, nbits@.len()),
        space <= 0x4_0000,
{
    let mut space: u32 = 0;
    let mut i: usize = 0;
    while i < nbits.len()
        invariant
            i <= nbits@.len() <= 256,
            in_range(nbits@),
            space == lengths_space(nbits@, 11, i as nat),
            space <= 1024 * i,
        decreases nbits@.len() - i,
    {
        assert(1 <= nbits@[i as int] <= 11);
        proof {
            lemma2_to64();
            bits::lemma_pow2_monotone((11 - nbits@[i as int]) as nat, 10);
        }
        space = space + pow2_u32((11 - nbits[i]) as u32);
        i = i + 1;
    }
    space
}

/// Cuts lengths to eleven bits.
fn limit_lengths(nbits: Vec<u8>, largest: u8) -> (r: Vec<u8>)
    requires
        2 <= nbits@.len() <= 256,
        largest == longest(nbits@, nbits@.len()),
        rising(nbits@),
        short_space(cut(nbits@), nbits@.len()) <= 2048,
        forall|i: int| 0 <= i < nbits@.len() ==> #[trigger] nbits@[i] >= 1,
    ensures
        r@ == limited(nbits@),
{
    if largest <= MAX_CODE_BITS {
        return nbits;
    }
    let ghost all = nbits@;
    let n = nbits.len();
    let mut nbits = nbits;
    let mut i: usize = 0;
    while i < n
        invariant
            i <= n,
            n == all.len(),
            nbits@.len() == n,
            forall|k: int| i <= k < n ==> #[trigger] nbits@[k] == all[k],
            forall|k: int| 0 <= k < i ==> #[trigger] nbits@[k] == cut(all)[k],
        decreases n - i,
    {
        if nbits[i] > MAX_CODE_BITS {
            nbits[i] = MAX_CODE_BITS;
        }
        i = i + 1;
    }
    assert(nbits@ =~= cut(all));
    let ghost short = nbits@;
    proof {
        lemma_cut(all);
    }
    let mut cost: i32 = space_of(&nbits) as i32 - 2048;
    let ghost long = lengthen(short, cost as int, n as nat);
    let mut k: usize = n;
    while cost > 0 && k > 0
        invariant
            k <= n,
            n == nbits@.len(),
            cost <= 0x4_0000,
            in_range(nbits@),
            long == lengthen(nbits@, cost as int, k as nat),
        ensures
            long == nbits@,
        decreases k,
    {
        k = k - 1;
        assert(1 <= nbits@[k as int] <= 11);
        if nbits[k] < MAX_CODE_BITS {
            proof {
                lemma2_to64();
                bits::lemma_pow2_monotone((10 - nbits@[k as int]) as nat, 10);
            }
            cost = cost - pow2_u32((10 - nbits[k]) as u32) as i32;
            nbits[k] = nbits[k] + 1;
        }
    }
    proof {
        let j = lemma_lengthen(short, lengths_space(short, 11, n as nat) - 2048, n as nat);
        lemma_mixed_rising(short, j);
    }
    let mut room: i32 = 2048 - space_of(&nbits) as i32;
    let ghost goal = shorten(nbits@, room as int);
    while room > 0
        invariant
            2 <= n == nbits@.len() <= 256,
            0 <= room <= 2048,
            rising(nbits@),
            in_range(nbits@),
            room == 2048 - lengths_space(nbits@, 11, nbits@.len()),
            goal == shorten(nbits@, room as int),
        decreases room,
    {
        let ghost start = run_start(nbits@, (n - 1) as nat);
        let mut i: usize = n - 1;
        while i > 0 && nbits[i - 1] == nbits[i]
            invariant
                i < n,
                n == nbits@.len(),
                start == run_start(nbits@, i as nat),
            decreases i,
        {
            i = i - 1;
        }
        proof {
            lemma_shorten_step(nbits@, room as int);
            lemma_pow2_pos((11 - nbits@[i as int]) as nat);
            assert(1 <= nbits@[i as int] <= 11);
            lemma2_to64();
            bits::lemma_pow2_monotone((11 - nbits@[i as int]) as nat, 10);
        }
        room = room - pow2_u32((11 - nbits[i]) as u32) as i32;
        nbits[i] = nbits[i] - 1;
    }
    nbits
}

// ---------------------------------------------------------------------------
// Lengths by symbol
// ---------------------------------------------------------------------------

/// The lengths of `size` symbols, after those of the first `k` leaves are entered.
pub open spec fn by_symbol(list: Seq<(u32, u8)>, nbits: Seq<u8>, size: nat, k: nat) -> Seq<u8>
    decreases k,
{
    if k == 0 {
        Seq::new(size, |s: int| 0u8)
    } else {
        by_symbol(list, nbits, size, (k - 1) as nat).update(list[k - 1].1 as int, nbits[k - 1])
    }
}

/// The code lengths for symbols with the given counts: those of a Huffman tree, cut to
/// eleven bits.  There are none for fewer than two symbols.
pub open spec fn code_lengths(counts: Seq<u32>) -> Option<Seq<u8>> {
    let list = leaves(counts, counts.len());
    let depths = leaf_depths(list);
    if list.len() < 2 {
        None
    } else {
        Some(by_symbol(list, limited(depths), counts.len(), list.len()))
    }
}

pub proof fn lemma_by_symbol(list: Seq<(u32, u8)>, nbits: Seq<u8>, size: nat, k: nat)
    requires
        k <= list.len(),
        k <= nbits.len(),
        forall|i: int| 0 <= i < list.len() ==> (#[trigger] list[i]).1 < size,
        forall|i: int, j: int|
            0 <= i < j < list.len() ==> (#[trigger] list[i]).1 != (#[trigger] list[j]).1,
    ensures
        by_symbol(list, nbits, size, k).len() == size,
        forall|i: int|
            0 <= i < k ==> by_symbol(list, nbits, size, k)[(#[trigger] list[i]).1 as int]
                == nbits[i],
        forall|s: int|
            0 <= s < size && (forall|i: int| 0 <= i < k ==> (#[trigger] list[i]).1 != s)
                ==> #[trigger] by_symbol(list, nbits, size, k)[s] == 0,
    decreases k,
{
    if k > 0 {
        lemma_by_symbol(list, nbits, size, (k - 1) as nat);
        let before = by_symbol(list, nbits, size, (k - 1) as nat);
        let after = by_symbol(list, nbits, size, k);
        assert forall|s: int|
            0 <= s < size && (forall|i: int| 0 <= i < k ==> (#[trigger] list[i]).1
                != s) implies #[trigger] after[s] == 0 by {
            assert(list[k - 1].1 != s);
            assert(before[s] == 0);
        }
    }
}

/// Exactly the symbols that occur have lengths, of at most eleven bits.
pub proof fn lemma_code_lengths(counts: Seq<u32>)
    requires
        counts.len() <= 256,
    ensures
        code_lengths(counts) matches Some(lens) ==> {
            &&& counts.len() >= 2
            &&& lens.len() == counts.len()
            &&& forall|s: int|
                0 <= s < counts.len() ==> #[trigger] lens[s] <= 11 && (lens[s] > 0 <==> counts[s]
                    > 0)
        },
{
    if code_lengths(counts) is Some {
        let list = leaves(counts, counts.len());
        let n = list.len();
        let nbits = limited(leaf_depths(list));
        let lens = by_symbol(list, nbits, counts.len(), n);
        lemma_leaves(counts, counts.len());
        lemma_tree_lengths(list);
        lemma_limited(leaf_depths(list));
        lemma_by_symbol(list, nbits, counts.len(), n);
        assert forall|s: int| 0 <= s < counts.len() implies #[trigger] lens[s] <= 11 && (lens[s]
            > 0 <==> counts[s] > 0) by {
            if exists|i: int| 0 <= i < n && (#[trigger] list[i]).1 == s {
                let i = choose|i: int| 0 <= i < n && (#[trigger] list[i]).1 == s;
                assert(lens[list[i].1 as int] == nbits[i]);
            } else {
                assert(lens[s] == 0);
            }
        }
    }
}

/// Computes code lengths.
pub fn huffman_lengths(counts: &[u32]) -> (r: Option<Vec<u8>>)
    requires
        counts@.len() <= 256,
    ensures
        match r {
            Some(lens) => code_lengths(counts@) == Some(lens@),
            None => code_lengths(counts@) is None,
        },
{
    let list = sort_leaves(counts);
    proof {
        lemma_leaves(counts@, counts@.len());
    }
    let n = list.len();
    if n < 2 {
        return None;
    }
    proof {
        lemma_tree_lengths(list@);
        lemma_limited(leaf_depths(list@));
    }
    let depths = tree_depths(&list);
    let largest = longest_code(&depths);
    let nbits = limit_lengths(depths, largest);
    let mut lens: Vec<u8> = vec![0u8; counts.len()];
    let mut i: usize = 0;
    assert(lens@ =~= by_symbol(list@, nbits@, counts@.len(), 0));
    while i < n
        invariant
            i <= n,
            n == list@.len(),
            n == nbits@.len(),
            lens@ == by_symbol(list@, nbits@, counts@.len(), i as nat),
            lens@.len() == counts@.len(),
            forall|i: int| 0 <= i < list@.len() ==> (#[trigger] list@[i]).1 < counts@.len(),
        decreases n - i,
    {
        lens[list[i].1 as usize] = nbits[i];
        i = i + 1;
    }
    Some(lens)
}

// ---------------------------------------------------------------------------
// Laws
// ---------------------------------------------------------------------------

impl Tree {
    /// Nodes that were taken earlier have earlier parents.
    spec fn ordered(self, n: nat) -> bool {
        &&& forall|i: int, j: int|
            self.low_sym < j < i < n ==> #[trigger] self.parent[i] <= #[trigger] self.parent[j]
        &&& forall|i: int, j: int|
            n <= i < j < self.low_node ==> #[trigger] self.parent[i] <= #[trigger] self.parent[j]
    }

    proof fn lemma_merge_ordered(self, n: nat)
        requires
            self.wf(n),
            self.ordered(n),
            self.next < 2 * n - 1,
        ensures
            self.merge().ordered(n),
    {
        self.lemma_merge(n);
        let m = self.merge();
        let a = self.pick();
        let b = self.after_pick().pick();
        assert(forall|i: int|
            0 <= i < 2 * n ==> #[trigger] m.parent[i] == (if i == a || i == b {
                self.next as u32
            } else {
                self.parent[i]
            }));
        assert forall|i: int, j: int| m.low_sym < j < i < n implies #[trigger] m.parent[i]
            <= #[trigger] m.parent[j] by {
            if j > self.low_sym {
                assert(self.parent[i] <= self.parent[j]);
            }
        }
        assert forall|i: int, j: int| n <= i < j < m.low_node implies #[trigger] m.parent[i]
            <= #[trigger] m.parent[j] by {
            if j < self.low_node {
                assert(self.parent[i] <= self.parent[j]);
            }
        }
    }
}

proof fn lemma_tree_ordered(list: Seq<(u32, u8)>, k: nat)
    requires
        2 <= list.len() <= 256,
        k < list.len(),
    ensures
        tree_after(list, k).ordered(list.len()),
    decreases k,
{
    if k > 0 {
        lemma_tree_after(list, (k - 1) as nat);
        lemma_tree_ordered(list, (k - 1) as nat);
        tree_after(list, (k - 1) as nat).lemma_merge_ordered(list.len());
    }
}

/// Earlier inner nodes are not above later ones.
proof fn lemma_inner_depths(t: Tree, n: nat, i: nat, j: nat)
    requires
        t.wf(n),
        t.ordered(n),
        t.low_node == 2 * n - 2,
        t.next == 2 * n - 1,
        n <= i <= j <= 2 * n - 2,
    ensures
        depth(t.parent, (2 * n - 2) as nat, i) >= depth(t.parent, (2 * n - 2) as nat, j),
    decreases 2 * n - i,
{
    if i < j < 2 * n - 2 {
        let p = t.parent[i as int];
        let q = t.parent[j as int];
        assert(i < p < t.next && j < q < t.next);
        assert(p <= q);
        lemma_inner_depths(t, n, p as nat, q as nat);
    }
}

/// Later leaves are not above earlier ones.
proof fn lemma_depths_ordered(list: Seq<(u32, u8)>, i: int, j: int)
    requires
        2 <= list.len() <= 256,
        0 <= i < j < list.len(),
    ensures
        leaf_depths(list)[i] <= leaf_depths(list)[j],
{
    let n = list.len();
    let root = (2 * n - 2) as nat;
    let t = tree_after(list, (n - 1) as nat);
    lemma_tree_after(list, (n - 1) as nat);
    lemma_tree_ordered(list, (n - 1) as nat);
    assert(t.low_sym == -1 && t.low_node == root);
    let p = t.parent[i] as nat;
    let q = t.parent[j] as nat;
    assert(i < p < t.next && p >= n);
    assert(j < q < t.next && q >= n);
    assert(q <= p);
    lemma_inner_depths(t, n, q, p);
    lemma_depth(t.parent, root, p);
    lemma_depth(t.parent, root, q);
    assert(depth(t.parent, root, i as nat) == 1 + depth(t.parent, root, p));
    assert(depth(t.parent, root, j as nat) == 1 + depth(t.parent, root, q));
}

/// The leaves are sorted by falling count.
pub proof fn lemma_leaves_sorted(counts: Seq<u32>, n: nat)
    requires
        n <= counts.len(),
    ensures
        forall|i: int, j: int|
            0 <= i < j < leaves(counts, n).len() ==> (#[trigger] leaves(counts, n)[i]).0 >= (
            #[trigger] leaves(counts, n)[j]).0,
    decreases n,
{
    if n > 0 {
        let old_list = leaves(counts, (n - 1) as nat);
        let list = leaves(counts, n);
        let c = counts[n - 1];
        lemma_leaves_sorted(counts, (n - 1) as nat);
        if c > 0 {
            let p = leaf_position(old_list, c, old_list.len()) as int;
            lemma_leaf_position(old_list, c, old_list.len());
            lemma_position_splits(old_list, c, old_list.len());
            assert forall|i: int, j: int| 0 <= i < j < list.len() implies (#[trigger] list[i]).0
                >= (#[trigger] list[j]).0 by {
                let oi = if i < p {
                    i
                } else {
                    i - 1
                };
                let oj = if j < p {
                    j
                } else {
                    j - 1
                };
                if i != p {
                    assert(list[i] == old_list[oi]);
                }
                if j != p {
                    assert(list[j] == old_list[oj]);
                }
                if j == p {
                    if p - 1 > i {
                        assert(old_list[i].0 >= old_list[p - 1].0);
                    }
                } else if i != p {
                    assert(old_list[oi].0 >= old_list[oj].0);
                }
            }
        }
    }
}

pub proof fn lemma_position_splits(list: Seq<(u32, u8)>, count: u32, k: nat)
    requires
        k <= list.len(),
    ensures
        leaf_position(list, count, k) > 0 ==> list[leaf_position(list, count, k) - 1].0 >= count,
        forall|i: int|
            leaf_position(list, count, k) <= i < k ==> (#[trigger] list[i]).0 < count,
    decreases k,
{
    if k > 0 && list[k - 1].0 < count {
        lemma_position_splits(list, count, (k - 1) as nat);
    }
}

/// Symbols that occur more often have codes that are not longer.
pub proof fn lemma_frequent_shorter(counts: Seq<u32>, a: int, b: int)
    requires
        counts.len() <= 256,
        0 <= a < counts.len(),
        0 <= b < counts.len(),
        counts[a] > counts[b] > 0,
    ensures
        code_lengths(counts) matches Some(lens) && lens[a] <= lens[b],
{
    let list = leaves(counts, counts.len());
    let n = list.len();
    let nbits = limited(leaf_depths(list));
    lemma_leaves(counts, counts.len());
    lemma_leaves_sorted(counts, counts.len());
    let i = choose|i: int| 0 <= i < n && (#[trigger] list[i]).1 == a;
    let j = choose|j: int| 0 <= j < n && (#[trigger] list[j]).1 == b;
    assert(list[i].0 == counts[a] && list[j].0 == counts[b]);
    if j < i {
        assert(list[j].0 >= list[i].0);
    }
    assert(i < j);
    lemma_tree_lengths(list);
    lemma_limited(leaf_depths(list));
    assert(nbits[i] <= nbits[j]);
    lemma_by_symbol(list, nbits, counts.len(), n);
    let lens = by_symbol(list, nbits, counts.len(), n);
    assert(lens[list[i].1 as int] == nbits[i]);
    assert(lens[list[j].1 as int] == nbits[j]);
}

/// A node that has a parent keeps it.
pub proof fn lemma_parent_stays(list: Seq<(u32, u8)>, k: nat, m: nat, x: int)
    requires
        2 <= list.len() <= 256,
        k <= m < list.len(),
        tree_after(list, k).low_sym < x < list.len() || list.len() <= x < tree_after(
            list,
            k,
        ).low_node,
    ensures
        tree_after(list, m).parent[x] == tree_after(list, k).parent[x],
        tree_after(list, m).low_sym < x < list.len() || list.len() <= x < tree_after(
            list,
            m,
        ).low_node,
    decreases m - k,
{
    if k < m {
        lemma_parent_stays(list, k, (m - 1) as nat, x);
        let t = tree_after(list, (m - 1) as nat);
        lemma_tree_after(list, (m - 1) as nat);
        t.lemma_merge(list.len());
        t.lemma_pick(list.len());
    }
}

/// The sum of `w` from `a` to `b`.
spec fn weight_sum(w: Seq<nat>, a: int, b: int) -> nat
    decreases b - a,
{
    if a >= b {
        0
    } else {
        weight_sum(w, a, b - 1) + w[b - 1]
    }
}

proof fn lemma_weight_first(w: Seq<nat>, a: int, b: int)
    requires
        a < b,
    ensures
        weight_sum(w, a, b) == w[a] + weight_sum(w, a + 1, b),
    decreases b - a,
{
    if a + 1 < b {
        lemma_weight_first(w, a, b - 1);
    } else {
        assert(weight_sum(w, a, b - 1) == 0);
        assert(weight_sum(w, a + 1, b) == 0);
    }
}

/// The part of the code space that each node of the finished tree has, of `2^m`.
spec fn node_spaces(list: Seq<(u32, u8)>, m: nat) -> Seq<nat> {
    let n = list.len();
    let t = tree_after(list, (n - 1) as nat);
    Seq::new(2 * n, |x: int| pow2((m - depth(t.parent, (2 * n - 2) as nat, x as nat)) as nat))
}

/// The code space of the nodes without a parent.
spec fn open_space(w: Seq<nat>, t: Tree) -> nat {
    weight_sum(w, 0, t.low_sym + 1) + weight_sum(w, t.low_node as int, t.next as int)
}

/// Taking a node takes its space.
proof fn lemma_pick_space(w: Seq<nat>, t: Tree)
    requires
        -1 <= t.low_sym,
        !t.takes_leaf() ==> t.low_node < t.next,
    ensures
        open_space(w, t) == w[t.pick()] + open_space(w, t.after_pick()),
{
    if !t.takes_leaf() {
        lemma_weight_first(w, t.low_node as int, t.next as int);
    }
}

/// A node and its sibling have the space of their parent.
proof fn lemma_sibling_space(list: Seq<(u32, u8)>, k: nat, m: nat)
    requires
        2 <= list.len() <= 256,
        k + 1 < list.len(),
        m >= 2 * list.len(),
    ensures
        ({
            let w = node_spaces(list, m);
            let t = tree_after(list, k);
            w[t.pick()] + w[t.after_pick().pick()] == w[t.next as int]
        }),
{
    let n = list.len();
    let root = (2 * n - 2) as nat;
    let t = tree_after(list, k);
    let f = tree_after(list, (n - 1) as nat);
    let a = t.pick();
    let b = t.after_pick().pick();
    lemma_tree_after(list, k);
    t.lemma_merge(n);
    t.lemma_pick(n);
    t.after_pick().lemma_pick(n);
    lemma_parent_stays(list, k + 1, (n - 1) as nat, a);
    lemma_parent_stays(list, k + 1, (n - 1) as nat, b);
    assert(f.parent[a] == t.next && f.parent[b] == t.next);
    let d = depth(f.parent, root, t.next);
    assert(depth(f.parent, root, a as nat) == 1 + d);
    assert(depth(f.parent, root, b as nat) == 1 + d);
    lemma_depth(f.parent, root, t.next);
    lemma_pow2_unfold((m - d) as nat);
}

/// The nodes without a parent always have the whole code space.
proof fn lemma_open_space(list: Seq<(u32, u8)>, k: nat, m: nat)
    requires
        2 <= list.len() <= 256,
        k < list.len(),
        m >= 2 * list.len(),
    ensures
        open_space(node_spaces(list, m), tree_after(list, k)) == pow2(m),
    decreases list.len() - k,
{
    let n = list.len();
    let w = node_spaces(list, m);
    let t = tree_after(list, k);
    lemma_tree_after(list, k);
    if k == n - 1 {
        let root = 2 * n - 2;
        assert(t.low_sym == -1 && t.low_node == root);
        assert(weight_sum(w, 0, 0) == 0);
        assert(weight_sum(w, root, root) == 0);
        assert(weight_sum(w, root, root + 1) == w[root]);
    } else {
        let next = t.merge();
        let rest = t.after_pick();
        let rest2 = rest.after_pick();
        t.lemma_merge(n);
        t.lemma_pick(n);
        rest.lemma_pick(n);
        lemma_pick_space(w, t);
        lemma_pick_space(w, rest);
        lemma_sibling_space(list, k, m);
        assert(weight_sum(w, next.low_node as int, next.next as int) == weight_sum(
            w,
            rest2.low_node as int,
            t.next as int,
        ) + w[t.next as int]);
        assert(open_space(w, next) == open_space(w, rest2) + w[t.next as int]);
        lemma_open_space(list, k + 1, m);
    }
}

/// The code space in smaller units.
proof fn lemma_lengths_space(list: Seq<(u32, u8)>, max: nat, m: nat, k: nat)
    requires
        2 <= list.len() <= 256,
        k <= list.len(),
        max <= 11,
        m >= 2 * list.len() + 11,
        forall|i: int| 0 <= i < list.len() ==> #[trigger] leaf_depths(list)[i] <= max,
    ensures
        weight_sum(node_spaces(list, m), 0, k as int) == lengths_space(leaf_depths(list), max, k)
            * pow2((m - max) as nat),
    decreases k,
{
    let nbits = leaf_depths(list);
    if k > 0 {
        lemma_lengths_space(list, max, m, (k - 1) as nat);
        let n = list.len();
        let root = (2 * n - 2) as nat;
        let t = tree_after(list, (n - 1) as nat);
        let i = k - 1;
        lemma_tree_after(list, (n - 1) as nat);
        assert(t.low_sym == -1 && t.low_node == root);
        assert(i < t.parent[i] < t.next && t.parent[i] >= n);
        lemma_depth(t.parent, root, t.parent[i] as nat);
        assert(depth(t.parent, root, i as nat) == nbits[i]);
        lemma_pow2_adds((max - nbits[i]) as nat, (m - max) as nat);
        let u = pow2((m - max) as nat);
        let before = lengths_space(nbits, max, (k - 1) as nat);
        let own = pow2((max - nbits[i]) as nat);
        assert((before + own) * u == before * u + own * u) by (nonlinear_arith);
    } else {
        assert(0 * pow2((m - max) as nat) == 0) by (nonlinear_arith);
    }
}

/// Codes shorter than eleven bits have no more than their leaves' space.
proof fn lemma_short_space(list: Seq<(u32, u8)>, m: nat, k: nat)
    requires
        2 <= list.len() <= 256,
        k <= list.len(),
        m >= 2 * list.len() + 11,
    ensures
        short_space(cut(leaf_depths(list)), k) * pow2((m - 11) as nat) <= weight_sum(
            node_spaces(list, m),
            0,
            k as int,
        ),
    decreases k,
{
    let nbits = leaf_depths(list);
    let u = pow2((m - 11) as nat);
    if k > 0 {
        lemma_short_space(list, m, (k - 1) as nat);
        let n = list.len();
        let root = (2 * n - 2) as nat;
        let t = tree_after(list, (n - 1) as nat);
        let i = k - 1;
        lemma_tree_after(list, (n - 1) as nat);
        assert(t.low_sym == -1 && t.low_node == root);
        assert(i < t.parent[i] < t.next && t.parent[i] >= n);
        lemma_depth(t.parent, root, t.parent[i] as nat);
        assert(depth(t.parent, root, i as nat) == nbits[i]);
        let before = short_space(cut(nbits), (k - 1) as nat);
        if nbits[i] < 11 {
            lemma_pow2_adds((11 - nbits[i]) as nat, (m - 11) as nat);
            let own = pow2((11 - nbits[i]) as nat);
            assert((before + own) * u == before * u + own * u) by (nonlinear_arith);
        }
    } else {
        assert(0 * u == 0) by (nonlinear_arith);
    }
}

/// The depths of a tree's leaves rise from one to the next, and those above the eleventh
/// level leave code space.
pub proof fn lemma_tree_lengths(list: Seq<(u32, u8)>)
    requires
        2 <= list.len() <= 256,
    ensures
        leaf_depths(list).len() == list.len(),
        rising(leaf_depths(list)),
        short_space(cut(leaf_depths(list)), list.len()) <= 2048,
        forall|i: int| 0 <= i < list.len() ==> #[trigger] leaf_depths(list)[i] >= 1,
{
    let n = list.len();
    let nbits = leaf_depths(list);
    let m = 2 * n + 11;
    lemma_leaf_depths(list);
    assert forall|i: int, j: int| 0 <= i <= j < n implies #[trigger] nbits[i]
        <= #[trigger] nbits[j] by {
        if i < j {
            lemma_depths_ordered(list, i, j);
        }
    }
    lemma_open_space(list, 0, m);
    assert(weight_sum(node_spaces(list, m), n as int, n as int) == 0);
    lemma_short_space(list, m, n);
    let u = pow2((m - 11) as nat);
    let space = short_space(cut(nbits), n);
    lemma_pow2_adds(11, (m - 11) as nat);
    lemma_pow2_pos((m - 11) as nat);
    lemma2_to64();
    assert(space <= 2048) by (nonlinear_arith)
        requires
            space * u <= 2048 * u,
            u > 0,
    ;
}

/// The code space of lengths where one symbol more has a length.
proof fn lemma_space_update(lens: Seq<u8>, s: int, v: u8, max: nat, n: nat)
    requires
        n <= lens.len(),
        0 <= s < lens.len(),
        lens[s] == 0,
        v > 0,
    ensures
        huffman::code_space(huffman::lens_of(lens.update(s, v)), max, n) == huffman::code_space(
            huffman::lens_of(lens),
            max,
            n,
        ) + (if s < n {
            pow2((max - v) as nat)
        } else {
            0
        }),
    decreases n,
{
    if n > 0 {
        lemma_space_update(lens, s, v, max, (n - 1) as nat);
    }
}

/// Lengths by symbol have the code space of the lengths by leaf.
proof fn lemma_symbols_space(
    list: Seq<(u32, u8)>,
    nbits: Seq<u8>,
    size: nat,
    max: nat,
    k: nat,
)
    requires
        k <= list.len() == nbits.len(),
        forall|i: int| 0 <= i < list.len() ==> (#[trigger] list[i]).1 < size,
        forall|i: int, j: int|
            0 <= i < j < list.len() ==> (#[trigger] list[i]).1 != (#[trigger] list[j]).1,
        forall|i: int| 0 <= i < nbits.len() ==> #[trigger] nbits[i] >= 1,
    ensures
        huffman::code_space(huffman::lens_of(by_symbol(list, nbits, size, k)), max, size)
            == lengths_space(nbits, max, k),
    decreases k,
{
    if k == 0 {
        lemma_no_space(by_symbol(list, nbits, size, 0), max, size);
    } else {
        let before = by_symbol(list, nbits, size, (k - 1) as nat);
        let s = list[k - 1].1 as int;
        lemma_symbols_space(list, nbits, size, max, (k - 1) as nat);
        lemma_by_symbol(list, nbits, size, (k - 1) as nat);
        assert(before[s] == 0) by {
            assert forall|i: int| 0 <= i < k - 1 implies (#[trigger] list[i]).1 != s by {
                assert(list[i].1 != list[k - 1].1);
            }
        }
        assert(nbits[k - 1] >= 1);
        lemma_space_update(before, s, nbits[k - 1], max, size);
    }
}

proof fn lemma_no_space(lens: Seq<u8>, max: nat, n: nat)
    requires
        n <= lens.len(),
        forall|s: int| 0 <= s < lens.len() ==> #[trigger] lens[s] == 0,
    ensures
        huffman::code_space(huffman::lens_of(lens), max, n) == 0,
    decreases n,
{
    if n > 0 {
        lemma_no_space(lens, max, (n - 1) as nat);
        assert(lens[n - 1] == 0);
    }
}

/// The lengths of a tree of at most eleven levels fill the code space.
proof fn lemma_tree_complete(list: Seq<(u32, u8)>)
    requires
        2 <= list.len() <= 256,
        longest(leaf_depths(list), list.len()) <= 11,
    ensures
        ({
            let max = longest(leaf_depths(list), list.len());
            lengths_space(leaf_depths(list), max, list.len()) == pow2(max)
        }),
{
    let n = list.len();
    let nbits = leaf_depths(list);
    let max = longest(nbits, n);
    let m = 2 * n + 11;
    lemma_leaf_depths(list);
    lemma_longest(nbits, n);
    lemma_open_space(list, 0, m);
    assert(weight_sum(node_spaces(list, m), n as int, n as int) == 0);
    lemma_lengths_space(list, max, m, n);
    let u = pow2((m - max) as nat);
    let space = lengths_space(nbits, max, n);
    lemma_pow2_adds(max, (m - max) as nat);
    lemma_pow2_pos((m - max) as nat);
    assert(space == pow2(max)) by (nonlinear_arith)
        requires
            space * u == pow2(max) * u,
            u > 0,
    ;
}

/// Limited lengths fill the code space.
proof fn lemma_limited_complete(list: Seq<(u32, u8)>)
    requires
        2 <= list.len() <= 256,
    ensures
        ({
            let nbits = limited(leaf_depths(list));
            let max = longest(nbits, nbits.len());
            &&& nbits.len() == list.len()
            &&& max <= 11
            &&& lengths_space(nbits, max, nbits.len()) == pow2(max)
        }),
{
    let n = list.len();
    let nbits = limited(leaf_depths(list));
    lemma_tree_lengths(list);
    lemma_limited(leaf_depths(list));
    let max = longest(nbits, n);
    lemma_longest(nbits, n);
    let top = choose|i: int| 0 <= i < n && #[trigger] nbits[i] == max;
    assert(1 <= nbits[top] <= 11);
    if longest(leaf_depths(list), n) <= 11 {
        lemma_tree_complete(list);
    } else {
        lemma_space_units(nbits, max, n);
        lemma_pow2_adds(max, (11 - max) as nat);
        lemma_pow2_pos((11 - max) as nat);
        lemma2_to64();
        let u = pow2((11 - max) as nat);
        let space = lengths_space(nbits, max, n);
        let whole = pow2(max);
        assert(space == whole) by (nonlinear_arith)
            requires
                space * u == whole * u,
                u > 0,
        ;
    }
}

/// Two or more symbols get lengths that fill the code space.
pub proof fn lemma_lengths_complete(counts: Seq<u32>)
    requires
        counts.len() <= 256,
        leaves(counts, counts.len()).len() >= 2,
    ensures
        code_lengths(counts) matches Some(lens) && huffman::code_space(
            huffman::lens_of(lens),
            longest(lens, lens.len()),
            lens.len(),
        ) == pow2(longest(lens, lens.len())),
{
    let list = leaves(counts, counts.len());
    let n = list.len();
    let nbits = limited(leaf_depths(list));
    let max = longest(nbits, n);
    lemma_leaves(counts, counts.len());
    lemma_tree_lengths(list);
    lemma_limited(leaf_depths(list));
    assert forall|i: int| 0 <= i < n implies #[trigger] nbits[i] >= 1 by {
        assert(1 <= nbits[i] <= 11);
    }
    lemma_limited_complete(list);
    lemma_by_symbol(list, nbits, counts.len(), n);
    lemma_same_longest(list, nbits, counts.len());
    lemma_symbols_space(list, nbits, counts.len(), max, n);
}

/// The longest length by symbol is the longest by leaf.
proof fn lemma_same_longest(list: Seq<(u32, u8)>, nbits: Seq<u8>, size: nat)
    requires
        list.len() == nbits.len(),
        list.len() > 0,
        forall|i: int| 0 <= i < list.len() ==> (#[trigger] list[i]).1 < size,
        forall|i: int, j: int|
            0 <= i < j < list.len() ==> (#[trigger] list[i]).1 != (#[trigger] list[j]).1,
    ensures
        longest(by_symbol(list, nbits, size, list.len()), size) == longest(nbits, nbits.len()),
{
    let n = list.len();
    let lens = by_symbol(list, nbits, size, n);
    lemma_by_symbol(list, nbits, size, n);
    lemma_longest(lens, size);
    lemma_longest(nbits, n);
    let i = choose|i: int| 0 <= i < n && #[trigger] nbits[i] == longest(nbits, n);
    assert(lens[list[i].1 as int] == nbits[i]);
    let s = choose|s: int| 0 <= s < size && #[trigger] lens[s] == longest(lens, size);
    if exists|k: int| 0 <= k < n && (#[trigger] list[k]).1 == s {
        let k = choose|k: int| 0 <= k < n && (#[trigger] list[k]).1 == s;
        assert(lens[list[k].1 as int] == nbits[k]);
    } else {
        assert(lens[s] == 0);
    }
}

} // verus!
