//! Node handles and the liveness tracker: a dense boolean membership
//! record over a fixed-size node index space.

use vstd::prelude::*;

verus! {

/// A node is an opaque index into a fixed universe of `node_count` indices.
/// The all-ones index serves as the "no node" sentinel.
#[derive(Clone, Copy, PartialEq, Eq, Structural, Debug, Hash)]
pub struct Node {
    pub id: u32,
}

impl Node {
    /// Index of this node as a mathematical integer.
    pub open spec fn spec_idx(self) -> int {
        self.id as int
    }

    /// The node with the given index.
    pub open spec fn spec_new(i: int) -> Node {
        Node { id: i as u32 }
    }

    /// The sentinel returned when no node is found.
    pub open spec fn spec_invalid() -> Node {
        Node { id: u32::MAX }
    }

    pub fn new(id: u32) -> (r: Node)
        ensures
            r == Node::spec_new(id as int),
            r.spec_idx() == id as int,
    {
        Node { id }
    }

    /// The sentinel value standing for "no node".
    pub fn invalid() -> (r: Node)
        ensures
            r == Node::spec_invalid(),
    {
        Node { id: u32::MAX }
    }

    pub fn idx(&self) -> (r: usize)
        ensures
            r as int == self.spec_idx(),
    {
        self.id as usize
    }

    pub fn is_valid(&self) -> (r: bool)
        ensures
            r == (*self != Node::spec_invalid()),
    {
        self.id != u32::MAX
    }
}

impl Default for Node {
    /// The default node is the invalid sentinel.
    fn default() -> (r: Self)
        ensures
            r == Node::spec_invalid(),
    {
        Node { id: u32::MAX }
    }
}

/// Number of `true` entries in `s` below index `n`.
pub open spec fn count_true(s: Seq<bool>, n: int) -> int
    decreases n,
{
    if n <= 0 {
        0
    } else {
        count_true(s, n - 1) + if s[n - 1] { 1int } else { 0int }
    }
}

pub proof fn lemma_count_true_bounds(s: Seq<bool>, n: int)
    requires
        0 <= n <= s.len(),
    ensures
        0 <= count_true(s, n) <= n,
    decreases n,
{
    if n > 0 {
        lemma_count_true_bounds(s, n - 1);
    }
}

/// The count only depends on the entries below `n`.
pub proof fn lemma_count_true_agree(s: Seq<bool>, t: Seq<bool>, n: int)
    requires
        0 <= n <= s.len(),
        n <= t.len(),
        forall|k: int| 0 <= k < n ==> s[k] == t[k],
    ensures
        count_true(s, n) == count_true(t, n),
    decreases n,
{
    if n > 0 {
        lemma_count_true_agree(s, t, n - 1);
    }
}

/// Flipping one `true` entry below `n` to `false` lowers the count by one.
pub proof fn lemma_count_true_update_false(s: Seq<bool>, n: int, i: int)
    requires
        0 <= i < n <= s.len(),
        s[i],
    ensures
        count_true(s.update(i, false), n) == count_true(s, n) - 1,
    decreases n,
{
    let t = s.update(i, false);
    if i == n - 1 {
        lemma_count_true_agree(s, t, n - 1);
    } else {
        lemma_count_true_update_false(s, n - 1, i);
    }
}

/// If some entry below `n` is true, the count is positive.
pub proof fn lemma_count_true_positive(s: Seq<bool>, n: int, i: int)
    requires
        0 <= i < n <= s.len(),
        s[i],
    ensures
        count_true(s, n) >= 1,
    decreases n,
{
    if i < n - 1 {
        lemma_count_true_positive(s, n - 1, i);
    } else {
        lemma_count_true_bounds(s, n - 1);
    }
}

/// An all-false prefix counts zero.
pub proof fn lemma_count_true_zero_all(s: Seq<bool>, n: int)
    requires
        0 <= n <= s.len(),
        forall|k: int| 0 <= k < n ==> !s[k],
    ensures
        count_true(s, n) == 0,
    decreases n,
{
    if n > 0 {
        lemma_count_true_zero_all(s, n - 1);
    }
}

/// Flipping one `false` entry below `n` to `true` raises the count by one.
pub proof fn lemma_count_true_update_true(s: Seq<bool>, n: int, i: int)
    requires
        0 <= i < n <= s.len(),
        !s[i],
    ensures
        count_true(s.update(i, true), n) == count_true(s, n) + 1,
    decreases n,
{
    let t = s.update(i, true);
    if i == n - 1 {
        lemma_count_true_agree(s, t, n - 1);
    } else {
        lemma_count_true_update_true(s, n - 1, i);
    }
}

/// A pointwise-smaller status sequence has no larger count.
pub proof fn lemma_count_subset_le(s: Seq<bool>, t: Seq<bool>, n: int)
    requires
        0 <= n <= s.len(),
        n <= t.len(),
        forall|k: int| 0 <= k < n && s[k] ==> t[k],
    ensures
        count_true(s, n) <= count_true(t, n),
    decreases n,
{
    if n > 0 {
        lemma_count_subset_le(s, t, n - 1);
    }
}

/// A pointwise-smaller status sequence with the same count is equal below `n`.
pub proof fn lemma_count_subset_full(s: Seq<bool>, t: Seq<bool>, n: int)
    requires
        0 <= n <= s.len(),
        n <= t.len(),
        forall|k: int| 0 <= k < n && s[k] ==> t[k],
        count_true(s, n) == count_true(t, n),
    ensures
        forall|k: int| 0 <= k < n && t[k] ==> s[k],
    decreases n,
{
    if n > 0 {
        lemma_count_subset_le(s, t, n - 1);
        lemma_count_subset_full(s, t, n - 1);
    }
}

/// A strictly smaller count leaves some entry set only in `t`.
pub proof fn lemma_count_lt_exists(s: Seq<bool>, t: Seq<bool>, n: int)
    requires
        0 <= n <= s.len(),
        n <= t.len(),
        count_true(s, n) < count_true(t, n),
    ensures
        exists|k: int| 0 <= k < n && t[k] && !s[k],
    decreases n,
{
    if n > 0 {
        if t[n - 1] && !s[n - 1] {
            assert(t[n - 1] && !s[n - 1]);
        } else {
            lemma_count_lt_exists(s, t, n - 1);
        }
    }
}

proof fn lemma_count_true_all(s: Seq<bool>, n: int)
    requires
        0 <= n <= s.len(),
        forall|k: int| 0 <= k < n ==> s[k],
    ensures
        count_true(s, n) == n,
    decreases n,
{
    if n > 0 {
        lemma_count_true_all(s, n - 1);
    }
}

/// The alive nodes with index below `k`, in ascending index order.
pub open spec fn alive_upto(status: Seq<bool>, k: int) -> Seq<Node>
    decreases k,
{
    if k <= 0 {
        Seq::empty()
    } else if status[k - 1] {
        alive_upto(status, k - 1).push(Node::spec_new(k - 1))
    } else {
        alive_upto(status, k - 1)
    }
}

/// The full ascending alive listing of a status sequence.
pub open spec fn alive_listing(status: Seq<bool>) -> Seq<Node> {
    alive_upto(status, status.len() as int)
}

/// Shape of the alive listing: strictly ascending indices, exactly the
/// alive ones below `k`, one listing entry per `true` status entry.
pub proof fn lemma_alive_upto_props(status: Seq<bool>, k: int)
    requires
        0 <= k <= status.len(),
        k <= u32::MAX,
    ensures
        alive_upto(status, k).len() == count_true(status, k),
        forall|a: int, b: int| 0 <= a < b < alive_upto(status, k).len()
            ==> alive_upto(status, k)[a].spec_idx() < alive_upto(status, k)[b].spec_idx(),
        forall|a: int| 0 <= a < alive_upto(status, k).len()
            ==> 0 <= #[trigger] alive_upto(status, k)[a].spec_idx() < k
                && status[alive_upto(status, k)[a].spec_idx()],
        forall|i: int| 0 <= i < k && status[i]
            ==> exists|a: int|
                0 <= a < alive_upto(status, k).len()
                    && #[trigger] alive_upto(status, k)[a].spec_idx() == i,
    decreases k,
{
    if k > 0 {
        lemma_alive_upto_props(status, k - 1);
        let prev = alive_upto(status, k - 1);
        let cur = alive_upto(status, k);
        if status[k - 1] {
            assert(Node::spec_new(k - 1).spec_idx() == k - 1);
            assert forall|i: int| 0 <= i < k && status[i]
                implies exists|a: int|
                    0 <= a < cur.len() && #[trigger] cur[a].spec_idx() == i by {
                if i < k - 1 {
                    let a = choose|a: int|
                        0 <= a < prev.len() && #[trigger] prev[a].spec_idx() == i;
                    assert(cur[a].spec_idx() == i);
                } else {
                    assert(cur[cur.len() - 1].spec_idx() == i);
                }
            }
        }
    }
}

/// `k - 1 < u32::MAX` keeps `Node::spec_new(k - 1)` faithful; the tracker's
/// well-formedness bounds the universe below the sentinel index.
pub proof fn lemma_alive_listing_props(status: Seq<bool>)
    requires
        status.len() < u32::MAX,
    ensures
        alive_listing(status).len() == count_true(status, status.len() as int),
        forall|a: int, b: int| 0 <= a < b < alive_listing(status).len()
            ==> alive_listing(status)[a].spec_idx() < alive_listing(status)[b].spec_idx(),
        forall|a: int| 0 <= a < alive_listing(status).len()
            ==> 0 <= #[trigger] alive_listing(status)[a].spec_idx() < status.len()
                && status[alive_listing(status)[a].spec_idx()],
        forall|i: int| 0 <= i < status.len() && status[i]
            ==> exists|a: int|
                0 <= a < alive_listing(status).len()
                    && #[trigger] alive_listing(status)[a].spec_idx() == i,
{
    let n = status.len() as int;
    lemma_alive_upto_props(status, n);
    assert forall|i: int| 0 <= i < status.len() && status[i]
        implies exists|a: int|
            0 <= a < alive_listing(status).len()
                && #[trigger] alive_listing(status)[a].spec_idx() == i by {
        let a = choose|a: int|
            0 <= a < alive_upto(status, n).len() && #[trigger] alive_upto(status, n)[a].spec_idx() == i;
        assert(alive_listing(status)[a].spec_idx() == i);
    }
}

/// Tracks which nodes of the fixed universe are still part of the network.
/// Removal only marks a node dead; indices are never reused.
#[verifier::ext_equal]
#[derive(Debug, PartialEq)]
pub struct NodeStatusTracker {
    pub nodes: Vec<bool>,
    pub alive: usize,
}

impl NodeStatusTracker {
    /// Liveness of each node, by index.
    pub open spec fn status(self) -> Seq<bool> {
        self.nodes@
    }

    pub open spec fn spec_node_count(self) -> int {
        self.nodes@.len() as int
    }

    pub open spec fn spec_is_alive(self, i: int) -> bool {
        0 <= i < self.spec_node_count() && self.status()[i]
    }

    pub open spec fn spec_alive(self) -> int {
        self.alive as int
    }

    /// The alive counter agrees with the stored statuses, and the universe
    /// stays below the sentinel index.
    pub open spec fn wf(self) -> bool {
        &&& self.alive as int == count_true(self.status(), self.spec_node_count())
        &&& self.spec_node_count() < u32::MAX
    }

    /// All nodes of a fresh tracker are alive.
    pub fn new(node_count: usize) -> (r: NodeStatusTracker)
        requires
            node_count < u32::MAX,
        ensures
            r.wf(),
            r.spec_node_count() == node_count as int,
            r.spec_alive() == node_count as int,
            forall|i: int| 0 <= i < node_count as int ==> r.spec_is_alive(i),
    {
        let mut nodes: Vec<bool> = Vec::new();
        let mut k: usize = 0;
        while k < node_count
            invariant
                k <= node_count,
                nodes@.len() == k as int,
                forall|i: int| 0 <= i < k as int ==> nodes@[i],
            decreases node_count - k,
        {
            nodes.push(true);
            k += 1;
        }
        proof {
            lemma_count_true_all(nodes@, node_count as int);
        }
        NodeStatusTracker { nodes, alive: node_count }
    }

    /// Marks an alive node dead. Deleting a dead or out-of-range node is a
    /// caller bug and is excluded by precondition.
    pub fn delete(&mut self, node: Node)
        requires
            old(self).wf(),
            old(self).spec_is_alive(node.spec_idx()),
        ensures
            final(self).wf(),
            final(self).spec_node_count() == old(self).spec_node_count(),
            final(self).status() == old(self).status().update(node.spec_idx(), false),
            final(self).spec_alive() == old(self).spec_alive() - 1,
            forall|i: int| 0 <= i < final(self).spec_node_count() && i != node.spec_idx()
                ==> final(self).spec_is_alive(i) == old(self).spec_is_alive(i),
            !final(self).spec_is_alive(node.spec_idx()),
    {
        let i = node.idx();
        proof {
            lemma_count_true_positive(self.status(), self.spec_node_count(), i as int);
            lemma_count_true_update_false(self.status(), self.spec_node_count(), i as int);
        }
        self.nodes.set(i, false);
        self.alive = self.alive - 1;
    }

    pub fn is_alive(&self, node: Node) -> (r: bool)
        requires
            0 <= node.spec_idx() < self.spec_node_count(),
        ensures
            r == self.spec_is_alive(node.spec_idx()),
    {
        self.nodes[node.idx()]
    }

    pub fn alive(&self) -> (r: usize)
        ensures
            r as int == self.spec_alive(),
    {
        self.alive
    }

    pub fn node_count(&self) -> (r: usize)
        ensures
            r as int == self.spec_node_count(),
    {
        self.nodes.len()
    }

    /// The currently alive nodes, in strictly ascending index order.
    /// Re-evaluated fresh on each call, reflecting the tracker's state now.
    pub fn iter_alive(&self) -> (r: AliveNodeIter)
        requires
            self.wf(),
        ensures
            r.listing() == alive_listing(self.status()),
            r.pos() == 0,
    {
        let n = self.nodes.len();
        let mut nodes: Vec<Node> = Vec::new();
        let mut k: usize = 0;
        while k < n
            invariant
                k <= n,
                n as int == self.spec_node_count(),
                self.wf(),
                nodes@ == alive_upto(self.status(), k as int),
            decreases n - k,
        {
            if self.nodes[k] {
                nodes.push(Node::new(k as u32));
            }
            k += 1;
        }
        AliveNodeIter { nodes, pos: 0 }
    }
}

/// The alive listing law: what `iter_alive` walks is strictly ascending
/// by node index, holds exactly the alive nodes, and its length equals
/// the alive count.
pub proof fn lemma_iter_alive_law(tracker: NodeStatusTracker)
    requires
        tracker.wf(),
    ensures
        alive_listing(tracker.status()).len() == tracker.spec_alive(),
        forall|a: int, b: int| 0 <= a < b < alive_listing(tracker.status()).len()
            ==> alive_listing(tracker.status())[a].spec_idx()
                < alive_listing(tracker.status())[b].spec_idx(),
        forall|a: int| 0 <= a < alive_listing(tracker.status()).len()
            ==> tracker.spec_is_alive(
                #[trigger] alive_listing(tracker.status())[a].spec_idx()),
        forall|i: int| tracker.spec_is_alive(i)
            ==> exists|a: int|
                0 <= a < alive_listing(tracker.status()).len()
                    && #[trigger] alive_listing(tracker.status())[a].spec_idx() == i,
{
    lemma_alive_listing_props(tracker.status());
}

/// `s` with every occurrence of `node` removed, order kept.
pub open spec fn seq_remove(s: Seq<Node>, node: Node) -> Seq<Node>
    decreases s.len(),
{
    if s.len() == 0 {
        Seq::empty()
    } else if s.last() == node {
        seq_remove(s.drop_last(), node)
    } else {
        seq_remove(s.drop_last(), node).push(s.last())
    }
}

/// Every entry of `seq_remove(s, node)` differs from `node` and occurs in `s`.
pub proof fn lemma_seq_remove_sub(s: Seq<Node>, node: Node)
    ensures
        seq_remove(s, node).len() <= s.len(),
        forall|a: int| 0 <= a < seq_remove(s, node).len()
            ==> #[trigger] seq_remove(s, node)[a] != node && s.contains(seq_remove(s, node)[a]),
    decreases s.len(),
{
    if s.len() > 0 {
        lemma_seq_remove_sub(s.drop_last(), node);
        assert forall|a: int| 0 <= a < seq_remove(s, node).len()
            implies #[trigger] seq_remove(s, node)[a] != node
                && s.contains(seq_remove(s, node)[a]) by {
            let r = seq_remove(s, node);
            let front = seq_remove(s.drop_last(), node);
            if a < front.len() {
                let b = choose|b: int| 0 <= b < s.drop_last().len() && s.drop_last()[b] == front[a];
                assert(s[b] == r[a]);
            } else {
                assert(s[s.len() - 1] == r[a]);
            }
        }
    }
}

/// Removing a value that does not occur keeps the sequence whole.
proof fn lemma_seq_remove_absent(s: Seq<Node>, node: Node)
    requires
        forall|a: int| 0 <= a < s.len() ==> s[a] != node,
    ensures
        seq_remove(s, node) == s,
    decreases s.len(),
{
    if s.len() > 0 {
        lemma_seq_remove_absent(s.drop_last(), node);
        assert(seq_remove(s, node) =~= s);
    }
}

/// On a duplicate-free sequence, removing one value drops at most one entry.
pub proof fn lemma_seq_remove_distinct_len(s: Seq<Node>, node: Node)
    requires
        forall|a: int, b: int| 0 <= a < b < s.len() ==> s[a] != s[b],
    ensures
        seq_remove(s, node).len() >= s.len() - 1,
    decreases s.len(),
{
    if s.len() > 0 {
        let front = s.drop_last();
        if s.last() == node {
            assert forall|a: int| 0 <= a < front.len() implies front[a] != node by {
                assert(s[a] != s[s.len() - 1]);
            }
            lemma_seq_remove_absent(front, node);
        } else {
            lemma_seq_remove_distinct_len(front, node);
        }
    }
}

/// A finite, restartable listing of the nodes that were alive when it was
/// produced, yielded in strictly ascending index order.
#[derive(Clone, Debug, PartialEq)]
pub struct AliveNodeIter {
    pub nodes: Vec<Node>,
    pub pos: usize,
}

impl AliveNodeIter {
    /// The full listing this iterator walks.
    pub open spec fn listing(self) -> Seq<Node> {
        self.nodes@
    }

    /// How many nodes have been yielded so far.
    pub open spec fn pos(self) -> int {
        self.pos as int
    }

    /// Yields the next node of the listing.
    pub fn next(&mut self) -> (r: Option<Node>)
        ensures
            final(self).listing() == old(self).listing(),
            old(self).pos() < old(self).listing().len()
                ==> r == Some(old(self).listing()[old(self).pos()])
                    && final(self).pos() == old(self).pos() + 1,
            old(self).pos() >= old(self).listing().len()
                ==> r is None && final(self).pos() == old(self).pos(),
    {
        if self.pos < self.nodes.len() {
            let node = self.nodes[self.pos];
            self.pos = self.pos + 1;
            Some(node)
        } else {
            None
        }
    }

    /// Drops one node from the listing, keeping the order.
    pub fn exclude(self, node: Node) -> (r: AliveNodeIter)
        requires
            self.pos() == 0,
        ensures
            r.pos() == 0,
            r.listing() == seq_remove(self.listing(), node),
    {
        let mut out: Vec<Node> = Vec::new();
        let mut k: usize = 0;
        let n = self.nodes.len();
        while k < n
            invariant
                k <= n,
                n as int == self.listing().len(),
                self.pos() == 0,
                out@ == seq_remove(self.listing().take(k as int), node),
            decreases n - k,
        {
            let ghost taken = self.listing().take(k as int);
            proof {
                assert(self.listing().take(k as int + 1).drop_last() =~= taken);
            }
            let cur = self.nodes[k];
            if cur != node {
                out.push(cur);
            }
            k += 1;
        }
        proof {
            assert(self.listing().take(n as int) =~= self.listing());
        }
        AliveNodeIter { nodes: out, pos: 0 }
    }

    /// How many nodes the listing holds in total.
    pub fn count(&self) -> (r: usize)
        ensures
            r as int == self.listing().len(),
    {
        self.nodes.len()
    }

    /// The listing as a vector of nodes.
    pub fn into_vec(self) -> (r: Vec<Node>)
        ensures
            r@ == self.listing(),
    {
        self.nodes
    }
}

/// Node-associated data vector: one entry per node of the universe, only
/// alive-indexed entries meaningful.
#[verifier::ext_equal]
#[derive(Debug, PartialEq)]
pub struct NADVec<T> {
    pub data: Vec<T>,
}

impl<T: Copy> NADVec<T> {
    pub open spec fn entries(self) -> Seq<T> {
        self.data@
    }

    pub open spec fn spec_len(self) -> int {
        self.data@.len() as int
    }

    /// One `fill` entry per node of `tracker`'s universe.
    pub fn new(tracker: &NodeStatusTracker, fill: T) -> (r: NADVec<T>)
        ensures
            r.spec_len() == tracker.spec_node_count(),
            forall|i: int| 0 <= i < r.spec_len() ==> r.entries()[i] == fill,
    {
        let n = tracker.node_count();
        let mut data: Vec<T> = Vec::new();
        let mut k: usize = 0;
        while k < n
            invariant
                k <= n,
                data@.len() == k as int,
                forall|i: int| 0 <= i < k as int ==> data@[i] == fill,
            decreases n - k,
        {
            data.push(fill);
            k += 1;
        }
        NADVec { data }
    }

    pub fn fill(&mut self, value: T)
        ensures
            final(self).spec_len() == old(self).spec_len(),
            forall|i: int| 0 <= i < final(self).spec_len() ==> final(self).entries()[i] == value,
    {
        let n = self.data.len();
        let mut k: usize = 0;
        while k < n
            invariant
                k <= n,
                self.data@.len() == n as int,
                forall|i: int| 0 <= i < k as int ==> self.data@[i] == value,
            decreases n - k,
        {
            self.data.set(k, value);
            k += 1;
        }
    }

    pub fn at(&self, node: Node) -> (r: T)
        requires
            0 <= node.spec_idx() < self.spec_len(),
        ensures
            r == self.entries()[node.spec_idx()],
    {
        self.data[node.idx()]
    }

    pub fn set_at(&mut self, node: Node, value: T)
        requires
            0 <= node.spec_idx() < old(self).spec_len(),
        ensures
            final(self).entries() == old(self).entries().update(node.spec_idx(), value),
            final(self).spec_len() == old(self).spec_len(),
    {
        self.data.set(node.idx(), value);
    }

    /// The alive-indexed entries, in ascending node order.
    pub fn iter(&self, tracker: &NodeStatusTracker) -> (r: Vec<T>)
        requires
            tracker.wf(),
            self.spec_len() == tracker.spec_node_count(),
        ensures
            ({
                let order = alive_listing(tracker.status());
                &&& r@.len() == order.len()
                &&& r@.len() as int == tracker.spec_alive()
                &&& forall|a: int| 0 <= a < order.len()
                    ==> r@[a] == self.entries()[#[trigger] order[a].spec_idx()]
            }),
    {
        proof {
            lemma_alive_listing_props(tracker.status());
        }
        let order = tracker.iter_alive().into_vec();
        self.gather(&order)
    }

    /// The alive-indexed entries in ascending node order, one node left out.
    pub fn iter_exclude(&self, tracker: &NodeStatusTracker, exclude: Node) -> (r: Vec<T>)
        requires
            tracker.wf(),
            self.spec_len() == tracker.spec_node_count(),
        ensures
            ({
                let order = seq_remove(alive_listing(tracker.status()), exclude);
                &&& r@.len() == order.len()
                &&& r@.len() as int >= tracker.spec_alive() - 1
                &&& forall|a: int| 0 <= a < order.len()
                    ==> r@[a] == self.entries()[#[trigger] order[a].spec_idx()]
            }),
    {
        let ghost full = alive_listing(tracker.status());
        proof {
            lemma_alive_listing_props(tracker.status());
            lemma_seq_remove_sub(full, exclude);
            lemma_seq_remove_distinct_len(full, exclude);
            assert forall|a: int| 0 <= a < seq_remove(full, exclude).len()
                implies 0 <= #[trigger] seq_remove(full, exclude)[a].spec_idx()
                    < self.spec_len() by {
                let b = choose|b: int| 0 <= b < full.len() && full[b] == seq_remove(full, exclude)[a];
                assert(0 <= full[b].spec_idx() < tracker.spec_node_count());
            }
        }
        let order = tracker.iter_alive().exclude(exclude).into_vec();
        self.gather(&order)
    }

    fn gather(&self, order: &Vec<Node>) -> (r: Vec<T>)
        requires
            forall|a: int| 0 <= a < order@.len()
                ==> 0 <= #[trigger] order@[a].spec_idx() < self.spec_len(),
        ensures
            r@.len() == order@.len(),
            forall|a: int| 0 <= a < order@.len()
                ==> r@[a] == self.entries()[#[trigger] order@[a].spec_idx()],
    {
        let mut out: Vec<T> = Vec::new();
        let mut k: usize = 0;
        let n = order.len();
        while k < n
            invariant
                k <= n,
                n as int == order@.len(),
                out@.len() == k as int,
                forall|a: int| 0 <= a < order@.len()
                    ==> 0 <= #[trigger] order@[a].spec_idx() < self.spec_len(),
                forall|a: int| 0 <= a < k as int
                    ==> out@[a] == self.entries()[#[trigger] order@[a].spec_idx()],
            decreases n - k,
        {
            out.push(self.at(order[k]));
            k += 1;
        }
        out
    }
}

} // verus!
