//! All-pairs shortest paths over the alive subgraph: per-source uniform-cost
//! search, path reconstruction, and the per-node path-membership record the
//! betweenness metric is computed from.

use vstd::prelude::*;

use crate::mat::{fill_vec, Mat, MAX_NODES};
use crate::node::{
    alive_listing, count_true, lemma_alive_listing_props, lemma_count_lt_exists,
    lemma_count_subset_full, lemma_count_true_bounds, lemma_count_true_update_true, Node,
    NodeStatusTracker,
};

verus! {

/// Uniform cost of one connection hop.
pub const CONNECTION_COST: i64 = 2;

/// Sentinel distance of an unreached node.
pub const NO_PATH: i64 = i64::MAX;

/// `p` is a walk over alive nodes: nonempty, every node alive, every
/// consecutive pair distinct and adjacent.
pub open spec fn is_alive_path(
    adj: Mat<bool>,
    tracker: NodeStatusTracker,
    p: Seq<int>,
) -> bool {
    &&& p.len() >= 1
    &&& forall|k: int| 0 <= k < p.len() ==> tracker.spec_is_alive(#[trigger] p[k])
    &&& forall|k: int| 0 <= k < p.len() - 1
        ==> #[trigger] p[k] != p[k + 1] && adj.spec_get(p[k], p[k + 1])
}

/// `dst` can be reached from `src` walking alive, adjacent nodes.
pub open spec fn reaches(
    adj: Mat<bool>,
    tracker: NodeStatusTracker,
    src: int,
    dst: int,
) -> bool {
    exists|p: Seq<int>|
        is_alive_path(adj, tracker, p) && p.first() == src && p.last() == dst
}

pub proof fn lemma_reaches_self(adj: Mat<bool>, tracker: NodeStatusTracker, s: int)
    requires
        tracker.spec_is_alive(s),
    ensures
        reaches(adj, tracker, s, s),
{
    let p = seq![s];
    assert(is_alive_path(adj, tracker, p));
    assert(p.first() == s && p.last() == s);
}

pub proof fn lemma_reaches_step(
    adj: Mat<bool>,
    tracker: NodeStatusTracker,
    s: int,
    m: int,
    j: int,
)
    requires
        reaches(adj, tracker, s, m),
        tracker.spec_is_alive(j),
        j != m,
        adj.spec_get(m, j),
    ensures
        reaches(adj, tracker, s, j),
{
    let p = choose|p: Seq<int>|
        is_alive_path(adj, tracker, p) && p.first() == s && p.last() == m;
    let q = p.push(j);
    assert forall|k: int| 0 <= k < q.len() - 1
        implies #[trigger] q[k] != q[k + 1] && adj.spec_get(q[k], q[k + 1]) by {
        if k < p.len() - 1 {
            assert(p[k] != p[k + 1] && adj.spec_get(p[k], p[k + 1]));
        } else {
            assert(q[k] == m && q[k + 1] == j);
        }
    }
    assert(is_alive_path(adj, tracker, q));
    assert(q.first() == s && q.last() == j);
}

/// When the search stalls — every unvisited alive node still has the
/// sentinel distance — every alive path from a visited start stays inside
/// the visited set.
proof fn lemma_path_visited(
    adj: Mat<bool>,
    tracker: NodeStatusTracker,
    spt: Seq<bool>,
    dist: Seq<i64>,
    p: Seq<int>,
)
    requires
        spt.len() == tracker.spec_node_count(),
        dist.len() == tracker.spec_node_count(),
        is_alive_path(adj, tracker, p),
        spt[p.first()],
        forall|m: int, j: int|
            0 <= m < spt.len() && 0 <= j < spt.len() && spt[m] && tracker.spec_is_alive(j)
                && j != m && #[trigger] adj.spec_get(m, j) ==> dist[j] < NO_PATH,
        forall|j: int| 0 <= j < spt.len() && tracker.spec_is_alive(j) && !(#[trigger] spt[j])
            ==> dist[j] == NO_PATH,
    ensures
        spt[p.last()],
    decreases p.len(),
{
    if p.len() > 1 {
        let q = p.drop_last();
        assert(is_alive_path(adj, tracker, q)) by {
            assert(forall|k: int| 0 <= k < q.len() ==> tracker.spec_is_alive(#[trigger] q[k]));
            assert forall|k: int| 0 <= k < q.len() - 1
                implies #[trigger] q[k] != q[k + 1] && adj.spec_get(q[k], q[k + 1]) by {
                assert(p[k] != p[k + 1] && adj.spec_get(p[k], p[k + 1]));
            }
        }
        lemma_path_visited(adj, tracker, spt, dist, q);
        let m = p[p.len() - 2];
        let j = p[p.len() - 1];
        assert(m != j && adj.spec_get(m, j));
        assert(dist[j] < NO_PATH);
    }
}

/// Every prefix of an alive path is an alive path with the same start.
proof fn lemma_path_prefix(adj: Mat<bool>, tracker: NodeStatusTracker, p: Seq<int>, k: int)
    requires
        is_alive_path(adj, tracker, p),
        0 <= k < p.len(),
    ensures
        is_alive_path(adj, tracker, p.subrange(0, k + 1)),
        p.subrange(0, k + 1).first() == p.first(),
        p.subrange(0, k + 1).last() == p[k],
        p.subrange(0, k + 1).len() == k + 1,
{
    let q = p.subrange(0, k + 1);
    assert forall|d: int| 0 <= d < q.len()
        implies tracker.spec_is_alive(#[trigger] q[d]) by {
        assert(q[d] == p[d]);
    }
    assert forall|d: int| 0 <= d < q.len() - 1
        implies #[trigger] q[d] != q[d + 1] && adj.spec_get(q[d], q[d + 1]) by {
        assert(q[d] == p[d] && q[d + 1] == p[d + 1]);
        assert(p[d] != p[d + 1] && adj.spec_get(p[d], p[d + 1]));
    }
}

/// On a path whose first stretch is visited and whose end is not, some
/// first node is unvisited and everything before it is visited.
proof fn lemma_first_unvisited(
    spt: Seq<bool>,
    tracker: NodeStatusTracker,
    p: Seq<int>,
    j: int,
) -> (k: int)
    requires
        spt.len() == tracker.spec_node_count(),
        forall|d: int| 0 <= d < p.len() ==> tracker.spec_is_alive(#[trigger] p[d]),
        1 <= j < p.len(),
        forall|d: int| 0 <= d < j ==> spt[#[trigger] p[d]],
        !spt[p.last()],
    ensures
        1 <= k < p.len(),
        !spt[p[k]],
        forall|d: int| 0 <= d < k ==> spt[#[trigger] p[d]],
    decreases p.len() - j,
{
    if !spt[p[j]] {
        j
    } else {
        assert(j != p.len() - 1);
        lemma_first_unvisited(spt, tracker, p, j + 1)
    }
}

/// A finite recorded distance is realized by an actual alive path of
/// exactly that many hops.
proof fn lemma_dist_realizable(
    adj: Mat<bool>,
    tracker: NodeStatusTracker,
    dist: Seq<i64>,
    s: int,
    j: int,
)
    requires
        dist_ok(dist, tracker, adj, s),
        tracker.spec_is_alive(j),
    ensures
        exists|p: Seq<int>|
            is_alive_path(adj, tracker, p) && p.first() == s && p.last() == j
                && 2 * (p.len() - 1) == dist[j],
    decreases dist[j],
{
    if j == s {
        let p = seq![s];
        assert(is_alive_path(adj, tracker, p));
        assert(p.first() == s && p.last() == j && 2 * (p.len() - 1) == dist[j]);
    } else {
        let m = choose|m: int|
            tracker.spec_is_alive(m) && m != j && adj.spec_get(m, j)
                && dist[m] == dist[j] - CONNECTION_COST;
        lemma_dist_realizable(adj, tracker, dist, s, m);
        let q = choose|q: Seq<int>|
            is_alive_path(adj, tracker, q) && q.first() == s && q.last() == m
                && 2 * (q.len() - 1) == dist[m];
        let p = q.push(j);
        assert forall|d: int| 0 <= d < p.len() - 1
            implies #[trigger] p[d] != p[d + 1] && adj.spec_get(p[d], p[d + 1]) by {
            if d < q.len() - 1 {
                assert(q[d] != q[d + 1] && adj.spec_get(q[d], q[d + 1]));
            } else {
                assert(p[d] == m && p[d + 1] == j);
            }
        }
        assert(is_alive_path(adj, tracker, p));
        assert(p.first() == s && p.last() == j && 2 * (p.len() - 1) == dist[j]);
    }
}

/// Over an adjacency symmetric between alive nodes, the reversal of an
/// alive path is an alive path.
pub proof fn lemma_path_reverse(adj: Mat<bool>, tracker: NodeStatusTracker, p: Seq<int>)
    requires
        is_alive_path(adj, tracker, p),
        adj.spec_n() == tracker.spec_node_count(),
        forall|a: int, b: int|
            adj.in_range(a, b) && tracker.spec_is_alive(a) && tracker.spec_is_alive(b)
                ==> #[trigger] adj.spec_get(a, b) == adj.spec_get(b, a),
    ensures
        exists|q: Seq<int>|
            is_alive_path(adj, tracker, q) && q.first() == p.last() && q.last() == p.first()
                && q.len() == p.len(),
{
    let q = Seq::new(p.len(), |d: int| p[p.len() - 1 - d]);
    assert forall|d: int| 0 <= d < q.len()
        implies tracker.spec_is_alive(#[trigger] q[d]) by {
        assert(q[d] == p[p.len() - 1 - d]);
    }
    assert forall|d: int| 0 <= d < q.len() - 1
        implies #[trigger] q[d] != q[d + 1] && adj.spec_get(q[d], q[d + 1]) by {
        let e = p.len() - 2 - d;
        assert(q[d] == p[e + 1] && q[d + 1] == p[e]);
        assert(p[e] != p[e + 1] && adj.spec_get(p[e], p[e + 1]));
        assert(adj.in_range(p[e], p[e + 1]));
    }
    assert(is_alive_path(adj, tracker, q));
    assert(q.first() == p.last() && q.last() == p.first() && q.len() == p.len());
}

/// The distance table a successful search leaves behind: zero at the
/// source, small positive everywhere else alive, and every non-source
/// alive node has an alive neighbour exactly one hop closer.
pub open spec fn dist_ok(
    dist: Seq<i64>,
    tracker: NodeStatusTracker,
    adj: Mat<bool>,
    s: int,
) -> bool {
    &&& dist.len() == tracker.spec_node_count()
    &&& tracker.spec_is_alive(s)
    &&& dist[s] == 0
    &&& forall|j: int| tracker.spec_is_alive(j)
        ==> 0 <= #[trigger] dist[j] <= 2 * tracker.spec_node_count()
    &&& forall|j: int| tracker.spec_is_alive(j) && j != s
        ==> #[trigger] dist[j] >= CONNECTION_COST
            && exists|m: int|
                tracker.spec_is_alive(m) && m != j && adj.spec_get(m, j)
                    && dist[m] == dist[j] - CONNECTION_COST
}

/// Both endpoints of the pair `(i, j)` are recorded as lying on their own
/// shortest path, in both pair orders.
pub open spec fn endpoint_marks(pf: PathFinder, i: int, j: int) -> bool {
    pf.spec_contains(i, j, i) && pf.spec_contains(i, j, j) && pf.spec_contains(j, i, i)
        && pf.spec_contains(j, i, j)
}

/// Some alive path from `s` to `j` has total cost exactly `c`.
pub open spec fn dist_realized(
    adj: Mat<bool>,
    tracker: NodeStatusTracker,
    s: int,
    j: int,
    c: int,
) -> bool {
    exists|p: Seq<int>|
        is_alive_path(adj, tracker, p) && p.first() == s && p.last() == j
            && 2 * (p.len() - 1) == c
}

/// The costs row of `s` holds exact alive-subgraph distances: each entry
/// is realized by some alive path from `s` and no alive path beats it.
pub open spec fn costs_are_distances(
    pf: PathFinder,
    adj: Mat<bool>,
    tracker: NodeStatusTracker,
    s: int,
) -> bool {
    &&& forall|j: int|
        tracker.spec_is_alive(j) && j != s
            ==> dist_realized(adj, tracker, s, j,
                (#[trigger] pf.costs.spec_get(s, j)) as int)
    &&& forall|p: Seq<int>|
        #[trigger] is_alive_path(adj, tracker, p) && p.first() == s && p.last() != s
            ==> 2 * (p.len() - 1) >= pf.costs.spec_get(s, p.last())
}

/// Exact distances only read the source's costs row: they carry over to
/// any state with the same row.
pub proof fn lemma_costs_are_distances_stable(
    pf1: PathFinder,
    pf2: PathFinder,
    adj: Mat<bool>,
    tracker: NodeStatusTracker,
    s: int,
)
    requires
        costs_are_distances(pf1, adj, tracker, s),
        forall|j: int| tracker.spec_is_alive(j) && j != s
            ==> #[trigger] pf2.costs.spec_get(s, j) == pf1.costs.spec_get(s, j),
    ensures
        costs_are_distances(pf2, adj, tracker, s),
{
    assert forall|j: int| tracker.spec_is_alive(j) && j != s
        implies dist_realized(adj, tracker, s, j,
            (#[trigger] pf2.costs.spec_get(s, j)) as int) by {
        assert(dist_realized(adj, tracker, s, j, pf1.costs.spec_get(s, j) as int));
        assert(pf2.costs.spec_get(s, j) == pf1.costs.spec_get(s, j));
    }
    assert forall|p: Seq<int>|
        #[trigger] is_alive_path(adj, tracker, p) && p.first() == s && p.last() != s
        implies 2 * (p.len() - 1) >= pf2.costs.spec_get(s, p.last()) by {
        assert(tracker.spec_is_alive(p.last()));
        assert(2 * (p.len() - 1) >= pf1.costs.spec_get(s, p.last()));
        assert(pf2.costs.spec_get(s, p.last()) == pf1.costs.spec_get(s, p.last()));
    }
}

/// Some alive path realizes cost `c` from `s` to `t`, and every node on
/// it — endpoints included — is recorded as containing the pair, in both
/// pair orders.
pub open spec fn marked_path(
    pf: PathFinder,
    adj: Mat<bool>,
    tracker: NodeStatusTracker,
    s: int,
    t: int,
    c: int,
) -> bool {
    exists|p: Seq<int>|
        is_alive_path(adj, tracker, p) && p.first() == s && p.last() == t
            && 2 * (p.len() - 1) == c
            && forall|d: int| 0 <= d < p.len()
                ==> pf.spec_contains(s, t, #[trigger] p[d])
                    && pf.spec_contains(t, s, p[d])
}

/// A marked realizing path survives any later state that keeps its marks.
pub proof fn lemma_marked_path_mono(
    pf1: PathFinder,
    pf2: PathFinder,
    adj: Mat<bool>,
    tracker: NodeStatusTracker,
    s: int,
    t: int,
    c: int,
)
    requires
        marked_path(pf1, adj, tracker, s, t, c),
        pf1.wf(tracker.spec_node_count()),
        0 <= s < tracker.spec_node_count(),
        0 <= t < tracker.spec_node_count(),
        s != t,
        forall|x: int, a: int, b: int|
            0 <= x < pf1.paths@.len() && #[trigger] pf1.paths@[x].in_range(a, b)
                && pf1.paths@[x].spec_get(a, b) ==> pf2.paths@[x].spec_get(a, b),
    ensures
        marked_path(pf2, adj, tracker, s, t, c),
{
    let p = choose|p: Seq<int>|
        is_alive_path(adj, tracker, p) && p.first() == s && p.last() == t
            && 2 * (p.len() - 1) == c
            && forall|d: int| 0 <= d < p.len()
                ==> pf1.spec_contains(s, t, #[trigger] p[d])
                    && pf1.spec_contains(t, s, p[d]);
    assert forall|d: int| 0 <= d < p.len()
        implies pf2.spec_contains(s, t, #[trigger] p[d])
            && pf2.spec_contains(t, s, p[d]) by {
        assert(tracker.spec_is_alive(p[d]));
        assert(pf1.paths@[p[d]].in_range(s, t) && pf1.paths@[p[d]].in_range(t, s));
        assert(pf1.paths@[p[d]].spec_get(s, t) && pf1.paths@[p[d]].spec_get(t, s));
    }
    assert(is_alive_path(adj, tracker, p) && p.first() == s && p.last() == t
        && 2 * (p.len() - 1) == c
        && forall|d: int| 0 <= d < p.len()
            ==> pf2.spec_contains(s, t, #[trigger] p[d])
                && pf2.spec_contains(t, s, p[d]));
}

/// Assembles one source's contract from the loop outcomes: filled costs
/// row, settled lower bounds, recorded memberships.
proof fn lemma_source_contract(
    pf: PathFinder,
    marked: PathFinder,
    adj: Mat<bool>,
    tracker: NodeStatusTracker,
    dist: Seq<i64>,
    listing: Seq<Node>,
    s: int,
)
    requires
        tracker.wf(),
        adj.wf(),
        adj.spec_n() == tracker.spec_node_count(),
        tracker.spec_is_alive(s),
        listing == alive_listing(tracker.status()),
        dist.len() == tracker.spec_node_count(),
        dist_ok(dist, tracker, adj, s),
        pf.wf(tracker.spec_node_count()),
        marked.wf(tracker.spec_node_count()),
        pf.paths@ == marked.paths@,
        forall|c: int| 0 <= c < listing.len() && #[trigger] listing[c].spec_idx() != s
            ==> pf.costs.spec_get(s, listing[c].spec_idx())
                == dist[listing[c].spec_idx()],
        forall|p: Seq<int>| #[trigger] is_alive_path(adj, tracker, p) && p.first() == s
            ==> 2 * (p.len() - 1) >= dist[p.last()],
        forall|c: int| 0 <= c < listing.len() && #[trigger] listing[c].spec_idx() != s
            ==> ({
                let t = listing[c].spec_idx();
                marked.spec_contains(s, t, s) && marked.spec_contains(s, t, t)
                    && marked.spec_contains(t, s, s) && marked.spec_contains(t, s, t)
            }),
        forall|c: int| 0 <= c < listing.len() && #[trigger] listing[c].spec_idx() != s
            ==> marked_path(marked, adj, tracker, s, listing[c].spec_idx(),
                    dist[listing[c].spec_idx()] as int),
    ensures
        forall|j: int| tracker.spec_is_alive(j) && j != s
            ==> CONNECTION_COST <= #[trigger] pf.costs.spec_get(s, j)
                <= 2 * tracker.spec_node_count(),
        forall|t: int| tracker.spec_is_alive(t) && t != s
            ==> #[trigger] endpoint_marks(pf, s, t),
        costs_are_distances(pf, adj, tracker, s),
        forall|t: int| tracker.spec_is_alive(t) && t != s
            ==> #[trigger] marked_path(pf, adj, tracker, s, t,
                    pf.costs.spec_get(s, t) as int),
{
    lemma_alive_listing_props(tracker.status());
    assert forall|j: int| tracker.spec_is_alive(j) && j != s
        implies CONNECTION_COST <= #[trigger] pf.costs.spec_get(s, j)
            <= 2 * tracker.spec_node_count() by {
        let c = choose|c: int|
            0 <= c < listing.len() && #[trigger] listing[c].spec_idx() == j;
        assert(pf.costs.spec_get(s, j) == dist[j]);
    }
    assert forall|t: int| tracker.spec_is_alive(t) && t != s
        implies #[trigger] endpoint_marks(pf, s, t) by {
        let c = choose|c: int|
            0 <= c < listing.len() && #[trigger] listing[c].spec_idx() == t;
        assert(marked.spec_contains(s, t, s) && marked.spec_contains(s, t, t)
            && marked.spec_contains(t, s, s) && marked.spec_contains(t, s, t));
        assert(pf.paths@[s] == marked.paths@[s] && pf.paths@[t] == marked.paths@[t]);
    }
    assert forall|j: int| tracker.spec_is_alive(j) && j != s
        implies dist_realized(adj, tracker, s, j,
            (#[trigger] pf.costs.spec_get(s, j)) as int) by {
        let c = choose|c: int|
            0 <= c < listing.len() && #[trigger] listing[c].spec_idx() == j;
        assert(pf.costs.spec_get(s, j) == dist[j]);
        lemma_dist_realizable(adj, tracker, dist, s, j);
        let p = choose|p: Seq<int>|
            is_alive_path(adj, tracker, p) && p.first() == s && p.last() == j
                && 2 * (p.len() - 1) == dist[j];
        assert(is_alive_path(adj, tracker, p) && p.first() == s && p.last() == j
            && 2 * (p.len() - 1) == pf.costs.spec_get(s, j) as int);
    }
    assert forall|p: Seq<int>|
        #[trigger] is_alive_path(adj, tracker, p) && p.first() == s && p.last() != s
        implies 2 * (p.len() - 1) >= pf.costs.spec_get(s, p.last()) by {
        assert(tracker.spec_is_alive(p.last()));
        let c = choose|c: int|
            0 <= c < listing.len() && #[trigger] listing[c].spec_idx() == p.last();
        assert(pf.costs.spec_get(s, p.last()) == dist[p.last()]);
        assert(2 * (p.len() - 1) >= dist[p.last()]);
    }
    assert(costs_are_distances(pf, adj, tracker, s));
    assert forall|t: int| tracker.spec_is_alive(t) && t != s
        implies #[trigger] marked_path(pf, adj, tracker, s, t,
            pf.costs.spec_get(s, t) as int) by {
        let c = choose|c: int|
            0 <= c < listing.len() && #[trigger] listing[c].spec_idx() == t;
        assert(marked_path(marked, adj, tracker, s, t, dist[t] as int));
        assert forall|x: int, a3: int, b3: int|
            0 <= x < marked.paths@.len() && #[trigger] marked.paths@[x].in_range(a3, b3)
                && marked.paths@[x].spec_get(a3, b3)
            implies pf.paths@[x].spec_get(a3, b3) by {
            assert(pf.paths@[x] == marked.paths@[x]);
        }
        lemma_marked_path_mono(marked, pf, adj, tracker, s, t, dist[t] as int);
        assert(pf.costs.spec_get(s, t) == dist[t]);
    }
}

/// Shortest-path state: one cost matrix, and per node the set of
/// (source, target) pairs whose reconstructed shortest path passes through
/// that node — endpoints included.
#[verifier::ext_equal]
#[derive(Debug, PartialEq)]
pub struct PathFinder {
    pub costs: Mat<i64>,
    pub paths: Vec<Mat<bool>>,
}

impl PathFinder {
    pub open spec fn wf(self, n: int) -> bool {
        &&& self.costs.wf()
        &&& self.costs.spec_n() == n
        &&& self.costs.fill == 0
        &&& self.paths@.len() == n
        &&& forall|x: int| 0 <= x < n
            ==> (#[trigger] self.paths@[x]).wf() && self.paths@[x].spec_n() == n
                && self.paths@[x].fill == false
        &&& forall|a: int, b: int| self.costs.in_range(a, b)
            ==> 0 <= #[trigger] self.costs.spec_get(a, b) <= 2 * n
    }

    /// Node `x` lies on the recorded shortest path for pair `(s, t)`.
    pub open spec fn spec_contains(self, s: int, t: int, x: int) -> bool {
        self.paths@[x].spec_get(s, t)
    }

    pub fn new(node_count: usize) -> (r: PathFinder)
        requires
            node_count <= MAX_NODES,
        ensures
            r.wf(node_count as int),
            forall|a: int, b: int| r.costs.in_range(a, b) ==> r.costs.spec_get(a, b) == 0,
            forall|x: int, a: int, b: int| 0 <= x < node_count as int
                && #[trigger] r.paths@[x].in_range(a, b) ==> !r.paths@[x].spec_get(a, b),
    {
        let costs = Mat::new(node_count, 0i64);
        let mut paths: Vec<Mat<bool>> = Vec::new();
        let mut k: usize = 0;
        while k < node_count
            invariant
                k <= node_count,
                node_count <= MAX_NODES,
                paths@.len() == k as int,
                forall|x: int| 0 <= x < k as int
                    ==> (#[trigger] paths@[x]).wf() && paths@[x].spec_n() == node_count as int
                        && paths@[x].fill == false,
                forall|x: int, a: int, b: int| 0 <= x < k as int
                    && #[trigger] paths@[x].in_range(a, b) ==> !paths@[x].spec_get(a, b),
            decreases node_count - k,
        {
            paths.push(Mat::new(node_count, false));
            k += 1;
        }
        PathFinder { costs, paths }
    }

    /// Recorded cost from `i` to `j`.
    pub fn cost(&self, i: Node, j: Node) -> (r: i64)
        requires
            self.costs.wf(),
            self.costs.in_range(i.spec_idx(), j.spec_idx()),
        ensures
            r == self.costs.spec_get(i.spec_idx(), j.spec_idx()),
    {
        let c = self.costs.get(i, j);
        c.unwrap()
    }

    /// Whether `node` lies on the recorded shortest path of `path`.
    pub fn contains(&self, path: (Node, Node), node: Node) -> (r: bool)
        requires
            0 <= node.spec_idx() < self.paths@.len(),
            self.paths@[node.spec_idx()].wf(),
            self.paths@[node.spec_idx()].in_range(path.0.spec_idx(), path.1.spec_idx()),
        ensures
            r == self.spec_contains(path.0.spec_idx(), path.1.spec_idx(), node.spec_idx()),
    {
        let m = &self.paths[node.idx()];
        m.is_set(path.0, path.1)
    }

    /// Single-source shortest paths over the alive subgraph, uniform hop
    /// cost. On success records, for every other alive `target`, the cost
    /// from `src` and the membership of every node on one reconstructed
    /// shortest path, symmetrically for `(src, target)` and `(target, src)`.
    /// Returns `None` — leaving the state untouched — only when some alive
    /// node cannot be reached from `src`.
    #[verifier::rlimit(100)]
    pub fn find_shortest_path_for(
        &mut self,
        tracker: &NodeStatusTracker,
        adj: &Mat<bool>,
        src: Node,
    ) -> (r: Option<()>)
        requires
            old(self).wf(tracker.spec_node_count()),
            tracker.wf(),
            adj.wf(),
            adj.spec_n() == tracker.spec_node_count(),
            tracker.spec_is_alive(src.spec_idx()),
        ensures
            final(self).wf(tracker.spec_node_count()),
            r is Some ==> forall|j: int|
                tracker.spec_is_alive(j) && j != src.spec_idx()
                    ==> CONNECTION_COST
                        <= #[trigger] final(self).costs.spec_get(src.spec_idx(), j)
                        <= 2 * tracker.spec_node_count(),
            r is Some ==> forall|t: int|
                tracker.spec_is_alive(t) && t != src.spec_idx()
                    ==> #[trigger] endpoint_marks(*final(self), src.spec_idx(), t),
            // the freshly written costs row holds true shortest distances
            r is Some ==> costs_are_distances(*final(self), *adj, *tracker, src.spec_idx()),
            // and for every target some shortest path realizing the cost
            // is recorded node for node, endpoints included
            r is Some ==> forall|t: int|
                tracker.spec_is_alive(t) && t != src.spec_idx()
                    ==> #[trigger] marked_path(*final(self), *adj, *tracker, src.spec_idx(),
                            t, final(self).costs.spec_get(src.spec_idx(), t) as int),
            forall|a: int, b: int|
                old(self).costs.in_range(a, b) && a != src.spec_idx()
                    ==> final(self).costs.spec_get(a, b) == old(self).costs.spec_get(a, b),
            forall|x: int, a: int, b: int|
                0 <= x < old(self).paths@.len() && #[trigger] old(self).paths@[x].in_range(a, b)
                    && old(self).paths@[x].spec_get(a, b)
                    ==> final(self).paths@[x].spec_get(a, b),
            forall|x: int, a: int, b: int|
                0 <= x < old(self).paths@.len() && #[trigger] old(self).paths@[x].in_range(a, b)
                    && a != src.spec_idx() && b != src.spec_idx()
                    ==> final(self).paths@[x].spec_get(a, b)
                        == old(self).paths@[x].spec_get(a, b),
            // new memberships always arrive in symmetric pairs
            forall|x: int, a: int, b: int|
                0 <= x < old(self).paths@.len() && #[trigger] old(self).paths@[x].in_range(a, b)
                    && final(self).paths@[x].spec_get(a, b)
                    && !old(self).paths@[x].spec_get(a, b)
                    ==> final(self).paths@[x].spec_get(b, a),
            r is None ==> *final(self) == *old(self)
                && exists|t: int|
                    tracker.spec_is_alive(t)
                        && !reaches(*adj, *tracker, src.spec_idx(), t),
    {
        let ghost n_spec = tracker.spec_node_count();
        let ghost s = src.spec_idx();
        let n = tracker.node_count();
        let alive_vec = tracker.iter_alive().into_vec();
        let ghost listing = alive_listing(tracker.status());
        proof {
            lemma_alive_listing_props(tracker.status());
        }
        let alive_count = alive_vec.len();

        let mut spt: Vec<bool> = fill_vec(n, false);
        let mut dist: Vec<i64> = fill_vec(n, NO_PATH);
        proof {
            crate::node::lemma_count_true_zero_all(spt@, n as int);
        }
        dist.set(src.idx(), 0);
        proof {
            lemma_reaches_self(*adj, *tracker, s);
        }

        proof {
            lemma_count_true_bounds(tracker.status(), n as int);
        }
        let mut round: usize = 0;
        while round < alive_count
            invariant
                round <= alive_count,
                alive_count <= n,
                n as int == n_spec,
                n_spec == tracker.spec_node_count(),
                n <= MAX_NODES,
                *self == *old(self),
                old(self).wf(n_spec),
                alive_count as int == count_true(tracker.status(), n_spec),
                alive_count as int == listing.len(),
                alive_vec@ == listing,
                listing == alive_listing(tracker.status()),
                tracker.wf(),
                adj.wf(),
                adj.spec_n() == n_spec,
                s == src.spec_idx(),
                tracker.spec_is_alive(s),
                forall|b: int| 0 <= b < listing.len()
                    ==> 0 <= #[trigger] listing[b].spec_idx() < n_spec
                        && tracker.spec_is_alive(listing[b].spec_idx()),
                forall|i: int| 0 <= i < n_spec && tracker.spec_is_alive(i)
                    ==> exists|b: int|
                        0 <= b < listing.len() && #[trigger] listing[b].spec_idx() == i,
                spt@.len() == n_spec,
                dist@.len() == n_spec,
                count_true(spt@, n_spec) == round as int,
                dist@[s] == 0,
                forall|i: int| 0 <= i < n_spec && #[trigger] spt@[i]
                    ==> tracker.spec_is_alive(i) && dist@[i] < NO_PATH,
                forall|i: int| 0 <= i < n_spec && #[trigger] dist@[i] < NO_PATH
                    ==> tracker.spec_is_alive(i) && 0 <= dist@[i] <= 2 * round as int,
                forall|i: int| 0 <= i < n_spec && #[trigger] dist@[i] < NO_PATH && i != s
                    ==> dist@[i] >= CONNECTION_COST
                        && exists|m: int|
                            0 <= m < n_spec && spt@[m] && m != i
                                && adj.spec_get(m, i)
                                && dist@[m] == dist@[i] - CONNECTION_COST,
                forall|i: int| 0 <= i < n_spec && #[trigger] dist@[i] < NO_PATH
                    ==> reaches(*adj, *tracker, s, i),
                forall|m: int, j: int|
                    0 <= m < n_spec && 0 <= j < n_spec && spt@[m] && tracker.spec_is_alive(j)
                        && j != m && #[trigger] adj.spec_get(m, j) ==> dist@[j] < NO_PATH,
                forall|v: int, u: int| #![trigger spt@[v], dist@[u]]
                    0 <= v < n_spec && 0 <= u < n_spec && spt@[v] && !spt@[u]
                        && dist@[u] < NO_PATH ==> dist@[v] <= dist@[u],
                forall|v: int, u: int|
                    0 <= v < n_spec && 0 <= u < n_spec && spt@[v] && tracker.spec_is_alive(u)
                        && !spt@[u] && u != v && #[trigger] adj.spec_get(v, u)
                        ==> dist@[u] <= dist@[v] + CONNECTION_COST,
                forall|p: Seq<int>|
                    #[trigger] is_alive_path(*adj, *tracker, p) && p.first() == s
                        && spt@[p.last()] ==> 2 * (p.len() - 1) >= dist@[p.last()],
            decreases alive_count - round,
        {
            let mut min_node: Node = Node::invalid();
            let mut min_path: i64 = NO_PATH;
            let mut a: usize = 0;
            while a < alive_count
                invariant
                    a <= alive_count,
                    alive_count as int == listing.len(),
                    alive_vec@ == listing,
                    tracker.wf(),
                    n_spec == tracker.spec_node_count(),
                    spt@.len() == n_spec,
                    dist@.len() == n_spec,
                    forall|b: int| 0 <= b < listing.len()
                        ==> 0 <= #[trigger] listing[b].spec_idx() < n_spec
                            && tracker.spec_is_alive(listing[b].spec_idx()),
                    min_node == Node::spec_invalid() ==> min_path == NO_PATH,
                    min_node != Node::spec_invalid()
                        ==> 0 <= min_node.spec_idx() < n_spec
                            && tracker.spec_is_alive(min_node.spec_idx())
                            && !spt@[min_node.spec_idx()]
                            && dist@[min_node.spec_idx()] == min_path && min_path < NO_PATH,
                    min_node == Node::spec_invalid()
                        ==> forall|b: int| 0 <= b < a as int
                            ==> !(!spt@[#[trigger] listing[b].spec_idx()]
                                && dist@[listing[b].spec_idx()] < NO_PATH),
                    forall|b: int|
                        0 <= b < a as int && !spt@[#[trigger] listing[b].spec_idx()]
                            && dist@[listing[b].spec_idx()] < NO_PATH
                            ==> min_path <= dist@[listing[b].spec_idx()],
                decreases alive_count - a,
            {
                let node = alive_vec[a];
                let idx = node.idx();
                if !spt[idx] && dist[idx] < min_path {
                    min_path = dist[idx];
                    min_node = node;
                    proof {
                        assert(node.spec_idx() < n_spec);
                        assert(n_spec < u32::MAX);
                        assert(min_node != Node::spec_invalid());
                    }
                }
                a += 1;
            }

            if !min_node.is_valid() {
                proof {
                    // every alive unvisited node still has the sentinel
                    assert forall|j: int|
                        0 <= j < n_spec && tracker.spec_is_alive(j) && !(#[trigger] spt@[j])
                        implies dist@[j] == NO_PATH by {
                        let b = choose|b: int|
                            0 <= b < listing.len() && #[trigger] listing[b].spec_idx() == j;
                        assert(!(!spt@[listing[b].spec_idx()]
                            && dist@[listing[b].spec_idx()] < NO_PATH));
                    }
                    assert(spt@[s]);
                    assert(count_true(spt@, n_spec) < count_true(tracker.status(), n_spec));
                    assert forall|k: int| 0 <= k < n_spec && #[trigger] spt@[k]
                        implies tracker.status()[k] by {}
                    lemma_count_lt_exists(spt@, tracker.status(), n_spec);
                    let t0 = choose|k: int|
                        0 <= k < n_spec && tracker.status()[k] && !spt@[k];
                    assert(tracker.spec_is_alive(t0));
                    assert(!reaches(*adj, *tracker, s, t0)) by {
                        if reaches(*adj, *tracker, s, t0) {
                            let p = choose|p: Seq<int>|
                                is_alive_path(*adj, *tracker, p) && p.first() == s
                                    && p.last() == t0;
                            lemma_path_visited(*adj, *tracker, spt@, dist@, p);
                        }
                    }
                    assert(exists|t: int|
                        tracker.spec_is_alive(t) && !reaches(*adj, *tracker, s, t));
                }
                return None;
            }

            let min_idx = min_node.idx();
            proof {
                lemma_count_true_update_true(spt@, n_spec, min_idx as int);
                // the selected node carries the least tentative distance
                assert forall|u: int|
                    0 <= u < n_spec && tracker.spec_is_alive(u) && !spt@[u]
                        && dist@[u] < NO_PATH
                    implies min_path <= dist@[u] by {
                    let b = choose|b: int|
                        0 <= b < listing.len() && #[trigger] listing[b].spec_idx() == u;
                }
                // no alive path undercuts the selected distance
                assert forall|p: Seq<int>|
                    #[trigger] is_alive_path(*adj, *tracker, p) && p.first() == s
                        && p.last() == min_node.spec_idx()
                    implies 2 * (p.len() - 1) >= min_path by {
                    if min_path > 0 {
                        assert(min_node.spec_idx() != s);
                        assert(spt@[s]) by {
                            if !spt@[s] {
                                assert(min_path <= dist@[s]);
                            }
                        }
                        assert(p.len() >= 2) by {
                            if p.len() == 1 {
                                assert(p.first() == p.last());
                            }
                        }
                        let k = lemma_first_unvisited(spt@, *tracker, p, 1);
                        let v = p[k - 1];
                        let w = p[k];
                        lemma_path_prefix(*adj, *tracker, p, k - 1);
                        let pre = p.subrange(0, k);
                        assert(2 * (pre.len() - 1) >= dist@[v]);
                        assert(v != w && adj.spec_get(v, w));
                        assert(tracker.spec_is_alive(w));
                        assert(dist@[w] <= dist@[v] + CONNECTION_COST);
                        assert(dist@[w] < NO_PATH);
                        assert(min_path <= dist@[w]);
                    } else {
                        assert(2 * (p.len() - 1) >= 0);
                    }
                }
            }
            let ghost pre_spt = spt@;
            spt.set(min_idx, true);
            proof {
                assert forall|p: Seq<int>|
                    #[trigger] is_alive_path(*adj, *tracker, p) && p.first() == s
                        && spt@[p.last()]
                    implies 2 * (p.len() - 1) >= dist@[p.last()] by {
                    if p.last() != min_node.spec_idx() {
                        assert(pre_spt[p.last()]);
                    }
                }
                assert forall|v: int, u: int| #![trigger spt@[v], dist@[u]]
                    0 <= v < n_spec && 0 <= u < n_spec && spt@[v] && !spt@[u]
                        && dist@[u] < NO_PATH
                    implies dist@[v] <= dist@[u] by {
                    if v == min_node.spec_idx() {
                        assert(tracker.spec_is_alive(u) ==> min_path <= dist@[u]);
                    } else {
                        assert(pre_spt[v] && !pre_spt[u]);
                    }
                }
            }

            let ghost mid_dist = dist@;
            let mut a2: usize = 0;
            while a2 < alive_count
                invariant
                    a2 <= alive_count,
                    alive_count <= n,
                    round < alive_count,
                    alive_count as int == listing.len(),
                    alive_vec@ == listing,
                    n as int == n_spec,
                    n_spec == tracker.spec_node_count(),
                    n <= MAX_NODES,
                    min_idx as int == min_node.spec_idx(),
                    tracker.wf(),
                    adj.wf(),
                    adj.spec_n() == n_spec,
                    s == src.spec_idx(),
                    tracker.spec_is_alive(s),
                    forall|b: int| 0 <= b < listing.len()
                        ==> 0 <= #[trigger] listing[b].spec_idx() < n_spec
                            && tracker.spec_is_alive(listing[b].spec_idx()),
                    spt@.len() == n_spec,
                    dist@.len() == n_spec,
                    count_true(spt@, n_spec) == round as int + 1,
                    0 <= min_node.spec_idx() < n_spec,
                    spt@[min_node.spec_idx()],
                    dist@[min_node.spec_idx()] < NO_PATH,
                    dist@[min_node.spec_idx()] == mid_dist[min_node.spec_idx()],
                    0 <= dist@[min_node.spec_idx()] <= 2 * round as int,
                    dist@[s] == 0,
                    forall|i: int| 0 <= i < n_spec && #[trigger] spt@[i]
                        ==> tracker.spec_is_alive(i) && dist@[i] < NO_PATH,
                    forall|i: int| 0 <= i < n_spec && #[trigger] spt@[i]
                        ==> dist@[i] == mid_dist[i],
                    forall|i: int| 0 <= i < n_spec && #[trigger] dist@[i] < NO_PATH
                        ==> tracker.spec_is_alive(i) && 0 <= dist@[i] <= 2 * (round as int + 1),
                    mid_dist.len() == n_spec,
                    forall|i: int| 0 <= i < n_spec && #[trigger] dist@[i] < NO_PATH && i != s
                        ==> dist@[i] >= CONNECTION_COST
                            && exists|m: int|
                                0 <= m < n_spec && spt@[m] && m != i
                                    && adj.spec_get(m, i)
                                    && dist@[m] == dist@[i] - CONNECTION_COST,
                    forall|i: int| 0 <= i < n_spec && #[trigger] dist@[i] < NO_PATH
                        ==> reaches(*adj, *tracker, s, i),
                    forall|m: int, j: int|
                        0 <= m < n_spec && 0 <= j < n_spec && spt@[m] && m != min_node.spec_idx()
                            && tracker.spec_is_alive(j) && j != m
                            && #[trigger] adj.spec_get(m, j) ==> dist@[j] < NO_PATH,
                    forall|b: int| 0 <= b < a2 as int
                        ==> ({
                            let j = #[trigger] listing[b].spec_idx();
                            j != min_node.spec_idx() && adj.spec_get(min_node.spec_idx(), j)
                                ==> dist@[j] < NO_PATH
                        }),
                    forall|b: int| 0 <= b < a2 as int
                        ==> ({
                            let j = #[trigger] listing[b].spec_idx();
                            j != min_node.spec_idx() && !spt@[j]
                                && adj.spec_get(min_node.spec_idx(), j)
                                ==> dist@[j] <= dist@[min_node.spec_idx()] + CONNECTION_COST
                        }),
                    forall|v: int| 0 <= v < n_spec && #[trigger] spt@[v]
                        ==> dist@[v] <= dist@[min_node.spec_idx()],
                    forall|v: int, u: int| #![trigger spt@[v], dist@[u]]
                        0 <= v < n_spec && 0 <= u < n_spec && spt@[v] && !spt@[u]
                            && dist@[u] < NO_PATH ==> dist@[v] <= dist@[u],
                    forall|v: int, u: int|
                        0 <= v < n_spec && 0 <= u < n_spec && spt@[v]
                            && v != min_node.spec_idx() && tracker.spec_is_alive(u)
                            && !spt@[u] && u != v && #[trigger] adj.spec_get(v, u)
                            ==> dist@[u] <= dist@[v] + CONNECTION_COST,
                    forall|p: Seq<int>|
                        #[trigger] is_alive_path(*adj, *tracker, p) && p.first() == s
                            && spt@[p.last()] ==> 2 * (p.len() - 1) >= dist@[p.last()],
                decreases alive_count - a2,
            {
                let j = alive_vec[a2];
                let jdx = j.idx();
                if !spt[jdx] {
                    proof {
                        assert(jdx as int != min_node.spec_idx());
                    }
                    if adj.is_set(min_node, j) {
                        let dmin = dist[min_idx];
                        if dmin != NO_PATH && dmin + CONNECTION_COST < dist[jdx] {
                            let ghost before = dist@;
                            dist.set(jdx, dmin + CONNECTION_COST);
                            proof {
                                assert forall|p: Seq<int>|
                                    #[trigger] is_alive_path(*adj, *tracker, p)
                                        && p.first() == s && spt@[p.last()]
                                    implies 2 * (p.len() - 1) >= dist@[p.last()] by {
                                    assert(dist@[p.last()] == before[p.last()]);
                                }
                                lemma_reaches_step(
                                    *adj,
                                    *tracker,
                                    s,
                                    min_node.spec_idx(),
                                    j.spec_idx(),
                                );
                                assert forall|i: int|
                                    0 <= i < n_spec && #[trigger] dist@[i] < NO_PATH && i != s
                                    implies dist@[i] >= CONNECTION_COST
                                        && exists|m: int|
                                            0 <= m < n_spec && spt@[m]
                                                && m != i && adj.spec_get(m, i)
                                                && dist@[m] == dist@[i] - CONNECTION_COST by {
                                    if i == j.spec_idx() {
                                        assert(spt@[min_node.spec_idx()]
                                            && min_node.spec_idx() != i
                                            && adj.spec_get(min_node.spec_idx(), i)
                                            && dist@[min_node.spec_idx()]
                                                == dist@[i] - CONNECTION_COST);
                                    } else {
                                        assert(before[i] < NO_PATH);
                                        let m = choose|m: int|
                                            0 <= m < n_spec && spt@[m]
                                                && m != i && adj.spec_get(m, i)
                                                && before[m] == before[i] - CONNECTION_COST;
                                        assert(m != j.spec_idx());
                                        assert(dist@[m] == before[m]);
                                        assert(dist@[m] == dist@[i] - CONNECTION_COST);
                                    }
                                }
                            }
                        }
                    }
                }
                a2 += 1;
            }

            proof {
                // the frontier around the new node is now fully relaxed
                assert forall|m: int, j: int|
                    0 <= m < n_spec && 0 <= j < n_spec && spt@[m] && tracker.spec_is_alive(j)
                        && j != m && #[trigger] adj.spec_get(m, j)
                    implies dist@[j] < NO_PATH by {
                    if m == min_node.spec_idx() {
                        let b = choose|b: int|
                            0 <= b < listing.len() && #[trigger] listing[b].spec_idx() == j;
                        assert(0 <= b < alive_count as int);
                    }
                }
                assert forall|v: int, u: int|
                    0 <= v < n_spec && 0 <= u < n_spec && spt@[v] && tracker.spec_is_alive(u)
                        && !spt@[u] && u != v && #[trigger] adj.spec_get(v, u)
                    implies dist@[u] <= dist@[v] + CONNECTION_COST by {
                    if v == min_node.spec_idx() {
                        let b = choose|b: int|
                            0 <= b < listing.len() && #[trigger] listing[b].spec_idx() == u;
                        assert(0 <= b < alive_count as int);
                    }
                }
            }
            round += 1;
        }

        proof {
            // all alive nodes were visited, so every alive node is settled
            assert forall|k: int| 0 <= k < n_spec && spt@[k]
                implies tracker.status()[k] by {}
            lemma_count_subset_full(spt@, tracker.status(), n_spec);
            assert forall|j: int| tracker.spec_is_alive(j)
                implies 0 <= #[trigger] dist@[j] <= 2 * n_spec by {
                assert(spt@[j]);
                lemma_count_true_bounds(tracker.status(), n_spec);
            }
            assert forall|p: Seq<int>|
                #[trigger] is_alive_path(*adj, *tracker, p) && p.first() == s
                implies 2 * (p.len() - 1) >= dist@[p.last()] by {
                assert(tracker.spec_is_alive(p.last()));
                assert(spt@[p.last()]);
            }
            assert(dist_ok(dist@, *tracker, *adj, s)) by {
                assert forall|j: int| tracker.spec_is_alive(j) && j != s
                    implies #[trigger] dist@[j] >= CONNECTION_COST
                        && exists|m: int|
                            tracker.spec_is_alive(m) && m != j && adj.spec_get(m, j)
                                && dist@[m] == dist@[j] - CONNECTION_COST by {
                    assert(spt@[j]);
                    assert(dist@[j] < NO_PATH);
                    let m = choose|m: int|
                        0 <= m < n_spec && spt@[m] && m != j
                            && adj.spec_get(m, j) && dist@[m] == dist@[j] - CONNECTION_COST;
                    assert(tracker.spec_is_alive(m) && m != j && adj.spec_get(m, j)
                        && dist@[m] == dist@[j] - CONNECTION_COST);
                }
            }
        }

        // record membership of every node on one reconstructed shortest
        // path, for every target, symmetrically for both pair orders
        let mut b: usize = 0;
        while b < alive_count
            invariant
                b <= alive_count,
                alive_count as int == listing.len(),
                alive_vec@ == listing,
                n as int == n_spec,
                n_spec == tracker.spec_node_count(),
                n <= MAX_NODES,
                tracker.wf(),
                adj.wf(),
                adj.spec_n() == n_spec,
                s == src.spec_idx(),
                tracker.spec_is_alive(s),
                dist@.len() == n_spec,
                dist_ok(dist@, *tracker, *adj, s),
                listing == alive_listing(tracker.status()),
                forall|c: int| 0 <= c < listing.len()
                    ==> 0 <= #[trigger] listing[c].spec_idx() < n_spec
                        && tracker.spec_is_alive(listing[c].spec_idx()),
                old(self).wf(n_spec),
                self.wf(n_spec),
                self.costs == old(self).costs,
                forall|x: int, a3: int, b3: int|
                    0 <= x < n_spec && #[trigger] old(self).paths@[x].in_range(a3, b3)
                        && old(self).paths@[x].spec_get(a3, b3)
                        ==> self.paths@[x].spec_get(a3, b3),
                forall|x: int, a3: int, b3: int|
                    0 <= x < n_spec && #[trigger] old(self).paths@[x].in_range(a3, b3)
                        && a3 != s && b3 != s
                        ==> self.paths@[x].spec_get(a3, b3)
                            == old(self).paths@[x].spec_get(a3, b3),
                forall|x: int, a3: int, b3: int|
                    0 <= x < n_spec && #[trigger] old(self).paths@[x].in_range(a3, b3)
                        && self.paths@[x].spec_get(a3, b3)
                        && !old(self).paths@[x].spec_get(a3, b3)
                        ==> self.paths@[x].spec_get(b3, a3),
                forall|c: int| 0 <= c < b as int && #[trigger] listing[c].spec_idx() != s
                    ==> ({
                        let t = listing[c].spec_idx();
                        self.spec_contains(s, t, s) && self.spec_contains(s, t, t)
                            && self.spec_contains(t, s, s) && self.spec_contains(t, s, t)
                    }),
                forall|c: int| 0 <= c < b as int && #[trigger] listing[c].spec_idx() != s
                    ==> marked_path(*self, *adj, *tracker, s, listing[c].spec_idx(),
                            dist@[listing[c].spec_idx()] as int),
            decreases alive_count - b,
        {
            let ghost tpre = *self;
            let target = alive_vec[b];
            if target.idx() != src.idx() {
                let path = Self::reconstruct_path(tracker, adj, &dist, &alive_vec, src, target);
                let ghost t = target.spec_idx();
                let mut c: usize = 0;
                let plen = path.len();
                while c < plen
                    invariant
                        c <= plen,
                        plen as int == path@.len(),
                        n as int == n_spec,
                        s == src.spec_idx(),
                        t == target.spec_idx(),
                        0 <= s < n_spec,
                        0 <= t < n_spec,
                        s != t,
                        forall|d: int| 0 <= d < path@.len()
                            ==> 0 <= #[trigger] path@[d].spec_idx() < n_spec,
                        b as int <= listing.len(),
                        forall|c2: int| 0 <= c2 < listing.len()
                            ==> 0 <= #[trigger] listing[c2].spec_idx() < n_spec,
                        old(self).wf(n_spec),
                        self.wf(n_spec),
                        self.costs == old(self).costs,
                        forall|x: int, a3: int, b3: int|
                            0 <= x < n_spec && #[trigger] old(self).paths@[x].in_range(a3, b3)
                                && old(self).paths@[x].spec_get(a3, b3)
                                ==> self.paths@[x].spec_get(a3, b3),
                        forall|x: int, a3: int, b3: int|
                            0 <= x < n_spec && #[trigger] old(self).paths@[x].in_range(a3, b3)
                                && a3 != s && b3 != s
                                ==> self.paths@[x].spec_get(a3, b3)
                                    == old(self).paths@[x].spec_get(a3, b3),
                        forall|x: int, a3: int, b3: int|
                            0 <= x < n_spec && #[trigger] old(self).paths@[x].in_range(a3, b3)
                                && self.paths@[x].spec_get(a3, b3)
                                && !old(self).paths@[x].spec_get(a3, b3)
                                ==> self.paths@[x].spec_get(b3, a3),
                        tpre.wf(n_spec),
                        forall|x: int, a3: int, b3: int|
                            0 <= x < n_spec && #[trigger] tpre.paths@[x].in_range(a3, b3)
                                && tpre.paths@[x].spec_get(a3, b3)
                                ==> self.paths@[x].spec_get(a3, b3),
                        forall|c2: int| 0 <= c2 < b as int
                            && #[trigger] listing[c2].spec_idx() != s
                            ==> ({
                                let t2 = listing[c2].spec_idx();
                                self.spec_contains(s, t2, s) && self.spec_contains(s, t2, t2)
                                    && self.spec_contains(t2, s, s)
                                    && self.spec_contains(t2, s, t2)
                            }),
                        forall|d: int| 0 <= d < c as int
                            ==> self.spec_contains(s, t, #[trigger] path@[d].spec_idx())
                                && self.spec_contains(t, s, path@[d].spec_idx()),
                    decreases plen - c,
                {
                    let x = path[c];
                    let xi = x.idx();
                    let ghost before = *self;
                    let ghost before_paths = self.paths@;
                    let mut m = self.paths.remove(xi);
                    m.set(src, target);
                    m.set(target, src);
                    self.paths.insert(xi, m);
                    proof {
                        assert(self.paths@ =~= before_paths.update(xi as int, self.paths@[xi as int]));
                        let mm = self.paths@[xi as int];
                        assert(forall|a3: int, b3: int| mm.in_range(a3, b3)
                            && !(a3 == s && b3 == t) && !(a3 == t && b3 == s)
                            ==> #[trigger] mm.spec_get(a3, b3)
                                == before_paths[xi as int].spec_get(a3, b3));
                        assert(mm.spec_get(s, t) && mm.spec_get(t, s));
                        assert forall|x2: int, a3: int, b3: int|
                            0 <= x2 < n_spec && #[trigger] old(self).paths@[x2].in_range(a3, b3)
                                && old(self).paths@[x2].spec_get(a3, b3)
                            implies self.paths@[x2].spec_get(a3, b3) by {
                            assert(before.paths@[x2].spec_get(a3, b3));
                            if x2 != xi as int {
                                assert(self.paths@[x2] == before_paths[x2]);
                            }
                        }
                        assert forall|x2: int, a3: int, b3: int|
                            0 <= x2 < n_spec && #[trigger] tpre.paths@[x2].in_range(a3, b3)
                                && tpre.paths@[x2].spec_get(a3, b3)
                            implies self.paths@[x2].spec_get(a3, b3) by {
                            assert(before.paths@[x2].spec_get(a3, b3));
                            if x2 != xi as int {
                                assert(self.paths@[x2] == before_paths[x2]);
                            }
                        }
                        assert forall|x2: int, a3: int, b3: int|
                            0 <= x2 < n_spec && #[trigger] old(self).paths@[x2].in_range(a3, b3)
                                && a3 != s && b3 != s
                            implies self.paths@[x2].spec_get(a3, b3)
                                == old(self).paths@[x2].spec_get(a3, b3) by {
                            if x2 != xi as int {
                                assert(self.paths@[x2] == before_paths[x2]);
                            } else {
                                assert(mm.spec_get(a3, b3)
                                    == before_paths[xi as int].spec_get(a3, b3));
                            }
                            assert(before.paths@[x2].spec_get(a3, b3)
                                == old(self).paths@[x2].spec_get(a3, b3));
                        }
                        assert forall|x2: int, a3: int, b3: int|
                            0 <= x2 < n_spec && #[trigger] old(self).paths@[x2].in_range(a3, b3)
                                && self.paths@[x2].spec_get(a3, b3)
                                && !old(self).paths@[x2].spec_get(a3, b3)
                            implies self.paths@[x2].spec_get(b3, a3) by {
                            if x2 != xi as int {
                                assert(self.paths@[x2] == before_paths[x2]);
                                assert(before.paths@[x2].spec_get(a3, b3));
                                assert(before.paths@[x2].spec_get(b3, a3));
                            } else {
                                if (a3 == s && b3 == t) || (a3 == t && b3 == s) {
                                    assert(mm.spec_get(s, t) && mm.spec_get(t, s));
                                } else {
                                    assert(mm.spec_get(a3, b3)
                                        == before_paths[x2].spec_get(a3, b3));
                                    assert(before.paths@[x2].spec_get(a3, b3));
                                    assert(before.paths@[x2].spec_get(b3, a3));
                                    assert(old(self).paths@[x2].in_range(b3, a3));
                                    if !((b3 == s && a3 == t) || (b3 == t && a3 == s)) {
                                        assert(mm.spec_get(b3, a3)
                                            == before_paths[x2].spec_get(b3, a3));
                                    }
                                }
                            }
                        }
                        assert forall|c2: int| 0 <= c2 < b as int
                            && #[trigger] listing[c2].spec_idx() != s
                            implies ({
                                let t2 = listing[c2].spec_idx();
                                self.spec_contains(s, t2, s) && self.spec_contains(s, t2, t2)
                                    && self.spec_contains(t2, s, s)
                                    && self.spec_contains(t2, s, t2)
                            }) by {
                            let t2 = listing[c2].spec_idx();
                            assert(before.spec_contains(s, t2, s)
                                && before.spec_contains(s, t2, t2)
                                && before.spec_contains(t2, s, s)
                                && before.spec_contains(t2, s, t2));
                            assert(0 <= t2 < n_spec && t2 != s);
                            if s == xi as int {
                                assert(self.paths@[s].spec_get(s, t2)
                                    == if (s == s && t2 == t) || (s == t && t2 == s) {
                                        true
                                    } else {
                                        before_paths[s].spec_get(s, t2)
                                    });
                            }
                        }
                        assert forall|d: int| 0 <= d < c as int + 1
                            implies self.spec_contains(s, t, #[trigger] path@[d].spec_idx())
                                && self.spec_contains(t, s, path@[d].spec_idx()) by {
                            if d < c as int {
                                assert(before.spec_contains(s, t, path@[d].spec_idx())
                                    && before.spec_contains(t, s, path@[d].spec_idx()));
                                if path@[d].spec_idx() != xi as int {
                                    assert(self.paths@[path@[d].spec_idx()]
                                        == before_paths[path@[d].spec_idx()]);
                                }
                            } else {
                                assert(path@[d].spec_idx() == xi as int);
                            }
                        }
                    }
                    c += 1;
                }
                proof {
                    assert(path@[0].spec_idx() == t);
                    assert(path@[path@.len() - 1].spec_idx() == s);
                    assert(self.spec_contains(s, t, t) && self.spec_contains(t, s, t));
                    assert(self.spec_contains(s, t, s) && self.spec_contains(t, s, s));
                    // the reversed walk is an alive path realizing the
                    // distance, with every node on it marked for the pair
                    let ll = path@.len() as int;
                    let q = Seq::new(path@.len(), |d: int| path@[ll - 1 - d].spec_idx());
                    assert forall|d: int| 0 <= d < q.len()
                        implies tracker.spec_is_alive(#[trigger] q[d]) by {
                        assert(q[d] == path@[ll - 1 - d].spec_idx());
                    }
                    assert forall|d: int| 0 <= d < q.len() - 1
                        implies #[trigger] q[d] != q[d + 1]
                            && adj.spec_get(q[d], q[d + 1]) by {
                        let e = ll - 2 - d;
                        assert(q[d] == path@[e + 1].spec_idx()
                            && q[d + 1] == path@[e].spec_idx());
                        assert(path@[e + 1].spec_idx() != path@[e].spec_idx()
                            && adj.spec_get(path@[e + 1].spec_idx(), path@[e].spec_idx()));
                    }
                    assert(is_alive_path(*adj, *tracker, q));
                    assert(q.first() == s && q.last() == t);
                    assert(2 * (q.len() - 1) == dist@[t] as int);
                    assert forall|d: int| 0 <= d < q.len()
                        implies self.spec_contains(s, t, #[trigger] q[d])
                            && self.spec_contains(t, s, q[d]) by {
                        assert(q[d] == path@[ll - 1 - d].spec_idx());
                        assert(self.spec_contains(s, t, path@[ll - 1 - d].spec_idx()));
                    }
                    assert(marked_path(*self, *adj, *tracker, s, t, dist@[t] as int));
                    assert forall|c2: int|
                        0 <= c2 < b as int && #[trigger] listing[c2].spec_idx() != s
                        implies marked_path(*self, *adj, *tracker, s,
                            listing[c2].spec_idx(), dist@[listing[c2].spec_idx()] as int) by {
                        let t2 = listing[c2].spec_idx();
                        assert(marked_path(tpre, *adj, *tracker, s, t2, dist@[t2] as int));
                        lemma_marked_path_mono(tpre, *self, *adj, *tracker, s, t2,
                            dist@[t2] as int);
                    }
                }
            }
            b += 1;
        }

        // record the cost from src to every other alive node
        let ghost marked_pf = *self;
        let mut a4: usize = 0;
        while a4 < alive_count
            invariant
                a4 <= alive_count,
                alive_count as int == listing.len(),
                alive_vec@ == listing,
                n as int == n_spec,
                n_spec == tracker.spec_node_count(),
                forall|c1: int, c2: int| 0 <= c1 < c2 < listing.len()
                    ==> listing[c1].spec_idx() < listing[c2].spec_idx(),
                s == src.spec_idx(),
                tracker.spec_is_alive(s),
                dist@.len() == n_spec,
                dist_ok(dist@, *tracker, *adj, s),
                forall|c: int| 0 <= c < listing.len()
                    ==> 0 <= #[trigger] listing[c].spec_idx() < n_spec
                        && tracker.spec_is_alive(listing[c].spec_idx()),
                old(self).wf(n_spec),
                self.wf(n_spec),
                self.paths@ == marked_pf.paths@,
                forall|a3: int, b3: int|
                    old(self).costs.in_range(a3, b3) && a3 != s
                        ==> self.costs.spec_get(a3, b3) == old(self).costs.spec_get(a3, b3),
                forall|c: int| 0 <= c < a4 as int && #[trigger] listing[c].spec_idx() != s
                    ==> self.costs.spec_get(s, listing[c].spec_idx())
                        == dist@[listing[c].spec_idx()],
            decreases alive_count - a4,
        {
            let node = alive_vec[a4];
            let ghost before = *self;
            if node.idx() != src.idx() {
                let d = dist[node.idx()];
                self.costs.write(src, node, d);
                proof {
                    assert forall|a3: int, b3: int|
                        old(self).costs.in_range(a3, b3) && a3 != s
                        implies self.costs.spec_get(a3, b3)
                            == old(self).costs.spec_get(a3, b3) by {
                        assert(self.costs.spec_get(a3, b3)
                            == before.costs.spec_get(a3, b3));
                    }
                    assert forall|c: int| 0 <= c < a4 as int + 1
                        && #[trigger] listing[c].spec_idx() != s
                        implies self.costs.spec_get(s, listing[c].spec_idx())
                            == dist@[listing[c].spec_idx()] by {
                        if c < a4 as int {
                            assert(listing[c].spec_idx() < listing[a4 as int].spec_idx());
                            assert(self.costs.spec_get(s, listing[c].spec_idx())
                                == before.costs.spec_get(s, listing[c].spec_idx()));
                        }
                    }
                }
            }
            a4 += 1;
        }

        proof {
            lemma_source_contract(*self, marked_pf, *adj, *tracker, dist@, listing, s);
        }
        Some(())
    }

    /// `m` could be the walk's next step back from `cur`: alive, adjacent
    /// to `cur`, and exactly one hop cost closer to the source.
    pub open spec fn eligible_predecessor(
        adj: Mat<bool>,
        tracker: NodeStatusTracker,
        dist: Seq<i64>,
        cur: int,
        m: int,
    ) -> bool {
        &&& tracker.spec_is_alive(m)
        &&& m != cur
        &&& adj.spec_get(m, cur)
        &&& dist[m] == dist[cur] - CONNECTION_COST
    }

    /// Walks backward from `target` to `src`, taking at each step the first
    /// alive adjacent node (ascending index order) exactly one hop closer.
    /// Returns the visited nodes, `target` first, `src` last.
    fn reconstruct_path(
        tracker: &NodeStatusTracker,
        adj: &Mat<bool>,
        dist: &Vec<i64>,
        alive_vec: &Vec<Node>,
        src: Node,
        target: Node,
    ) -> (r: Vec<Node>)
        requires
            tracker.wf(),
            adj.wf(),
            adj.spec_n() == tracker.spec_node_count(),
            alive_vec@ == alive_listing(tracker.status()),
            dist_ok(dist@, *tracker, *adj, src.spec_idx()),
            tracker.spec_is_alive(src.spec_idx()),
            tracker.spec_is_alive(target.spec_idx()),
            src.spec_idx() != target.spec_idx(),
        ensures
            r@.len() >= 1,
            forall|d: int| 0 <= d < r@.len()
                ==> tracker.spec_is_alive(#[trigger] r@[d].spec_idx()),
            r@[0] == target,
            r@[r@.len() - 1] == src,
            // the walk descends one hop cost per step: the result is a
            // shortest path from target back to src
            forall|d: int| 0 <= d < r@.len()
                ==> dist@[(#[trigger] r@[d]).spec_idx()]
                    == dist@[target.spec_idx()] - 2 * d,
            forall|d: int| 0 <= d < r@.len() - 1
                ==> (#[trigger] r@[d + 1]).spec_idx() != r@[d].spec_idx()
                    && adj.spec_get(r@[d + 1].spec_idx(), r@[d].spec_idx()),
            2 * (r@.len() - 1) == dist@[target.spec_idx()],
            // each step takes the first eligible node in ascending index
            // order: the walk is fully deterministic
            forall|d: int, m: int|
                0 <= d < r@.len() - 1 && 0 <= m < r@[d + 1].spec_idx()
                    ==> !#[trigger] Self::eligible_predecessor(*adj, *tracker, dist@,
                            r@[d].spec_idx(), m),
    {
        let ghost n_spec = tracker.spec_node_count();
        let ghost s = src.spec_idx();
        let ghost listing = alive_listing(tracker.status());
        proof {
            lemma_alive_listing_props(tracker.status());
        }
        let alive_count = alive_vec.len();
        let mut path: Vec<Node> = Vec::new();
        path.push(target);
        let mut cur = target;
        let mut weight = dist[target.idx()];

        while cur.idx() != src.idx()
            invariant
                n_spec == tracker.spec_node_count(),
                s == src.spec_idx(),
                tracker.wf(),
                adj.wf(),
                adj.spec_n() == n_spec,
                alive_count as int == listing.len(),
                alive_vec@ == listing,
                listing == alive_listing(tracker.status()),
                forall|c: int| 0 <= c < listing.len()
                    ==> 0 <= #[trigger] listing[c].spec_idx() < n_spec
                        && tracker.spec_is_alive(listing[c].spec_idx()),
                forall|i: int| 0 <= i < n_spec && tracker.spec_is_alive(i)
                    ==> exists|c: int|
                        0 <= c < listing.len() && #[trigger] listing[c].spec_idx() == i,
                forall|c1: int, c2: int| 0 <= c1 < c2 < listing.len()
                    ==> listing[c1].spec_idx() < listing[c2].spec_idx(),
                dist_ok(dist@, *tracker, *adj, s),
                tracker.spec_is_alive(src.spec_idx()),
                tracker.spec_is_alive(cur.spec_idx()),
                weight == dist@[cur.spec_idx()],
                weight >= 0,
                path@.len() >= 1,
                path@[0] == target,
                path@[path@.len() - 1] == cur,
                forall|d: int| 0 <= d < path@.len()
                    ==> tracker.spec_is_alive(#[trigger] path@[d].spec_idx()),
                forall|d: int| 0 <= d < path@.len()
                    ==> dist@[(#[trigger] path@[d]).spec_idx()]
                        == dist@[target.spec_idx()] - 2 * d,
                forall|d: int| 0 <= d < path@.len() - 1
                    ==> (#[trigger] path@[d + 1]).spec_idx() != path@[d].spec_idx()
                        && adj.spec_get(path@[d + 1].spec_idx(), path@[d].spec_idx()),
                weight == dist@[target.spec_idx()] - 2 * (path@.len() - 1),
                forall|d: int, m: int|
                    0 <= d < path@.len() - 1 && 0 <= m < path@[d + 1].spec_idx()
                        ==> !#[trigger] Self::eligible_predecessor(*adj, *tracker, dist@,
                                path@[d].spec_idx(), m),
            decreases weight,
        {
            proof {
                assert(cur.spec_idx() != s);
                assert(dist@[cur.spec_idx()] >= CONNECTION_COST);
            }
            let want = weight - CONNECTION_COST;
            let mut found: Node = Node::invalid();
            let mut a: usize = 0;
            while a < alive_count
                invariant
                    a <= alive_count,
                    alive_count as int == listing.len(),
                    alive_vec@ == listing,
                    n_spec == tracker.spec_node_count(),
                    tracker.wf(),
                    adj.wf(),
                    adj.spec_n() == n_spec,
                    dist@.len() == n_spec,
                    0 <= cur.spec_idx() < n_spec,
                    want == dist@[cur.spec_idx()] - CONNECTION_COST,
                    forall|c: int| 0 <= c < listing.len()
                        ==> 0 <= #[trigger] listing[c].spec_idx() < n_spec
                            && tracker.spec_is_alive(listing[c].spec_idx()),
                    found == Node::spec_invalid() ==> forall|c: int| 0 <= c < a as int
                        ==> !({
                            let m = #[trigger] listing[c].spec_idx();
                            m != cur.spec_idx() && adj.spec_get(m, cur.spec_idx())
                                && dist@[m] == want
                        }),
                    found != Node::spec_invalid()
                        ==> tracker.spec_is_alive(found.spec_idx())
                            && found.spec_idx() != cur.spec_idx()
                            && adj.spec_get(found.spec_idx(), cur.spec_idx())
                            && dist@[found.spec_idx()] == want,
                    forall|c1: int, c2: int| 0 <= c1 < c2 < listing.len()
                        ==> listing[c1].spec_idx() < listing[c2].spec_idx(),
                    forall|i: int| 0 <= i < n_spec && tracker.spec_is_alive(i)
                        ==> exists|c: int|
                            0 <= c < listing.len() && #[trigger] listing[c].spec_idx() == i,
                    found != Node::spec_invalid()
                        ==> forall|c: int| 0 <= c < listing.len()
                            && #[trigger] listing[c].spec_idx() < found.spec_idx()
                            ==> !({
                                let m = listing[c].spec_idx();
                                m != cur.spec_idx() && adj.spec_get(m, cur.spec_idx())
                                    && dist@[m] == want
                            }),
                decreases alive_count - a,
            {
                if !found.is_valid() {
                    let node = alive_vec[a];
                    if node.idx() != cur.idx() {
                        if adj.is_set(node, cur) && dist[node.idx()] == want {
                            found = node;
                            proof {
                                assert(node.spec_idx() < n_spec < u32::MAX);
                                assert(found != Node::spec_invalid());
                                assert forall|c: int| 0 <= c < listing.len()
                                    && #[trigger] listing[c].spec_idx() < found.spec_idx()
                                    implies !({
                                        let m = listing[c].spec_idx();
                                        m != cur.spec_idx()
                                            && adj.spec_get(m, cur.spec_idx())
                                            && dist@[m] == want
                                    }) by {
                                    if c >= a as int {
                                        assert(listing[a as int].spec_idx()
                                            <= listing[c].spec_idx());
                                    }
                                }
                            }
                        }
                    }
                }
                a += 1;
            }
            proof {
                if found == Node::spec_invalid() {
                    let m = choose|m: int|
                        tracker.spec_is_alive(m) && m != cur.spec_idx()
                            && adj.spec_get(m, cur.spec_idx())
                            && dist@[m] == dist@[cur.spec_idx()] - CONNECTION_COST;
                    let c = choose|c: int|
                        0 <= c < listing.len() && #[trigger] listing[c].spec_idx() == m;
                    assert(false);
                }
                assert forall|m: int| 0 <= m < found.spec_idx()
                    implies !Self::eligible_predecessor(*adj, *tracker, dist@,
                        cur.spec_idx(), m) by {
                    if tracker.spec_is_alive(m) {
                        let c = choose|c: int|
                            0 <= c < listing.len() && #[trigger] listing[c].spec_idx() == m;
                    }
                }
            }
            weight = weight - CONNECTION_COST;
            cur = found;
            path.push(found);
        }
        proof {
            assert(cur.spec_idx() == src.spec_idx());
            assert(cur == src) by {
                assert(cur.id == src.id);
            }
        }
        path
    }
}

} // verus!
