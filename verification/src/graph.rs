//! The graph: liveness tracker, symmetric adjacency matrix and path finder,
//! built from a validated topology description. Node removal marks the node
//! dead and erases its incoming edges; path data goes stale until the next
//! path update and is never read before that.

use vstd::prelude::*;

use crate::mat::{copy_vec, Mat, MAX_NODES};
use crate::node::{alive_listing, lemma_alive_listing_props, NADVec, Node, NodeStatusTracker};
use crate::path_finder::{costs_are_distances, dist_realized, is_alive_path,
    lemma_costs_are_distances_stable, lemma_marked_path_mono, lemma_path_reverse,
    marked_path, reaches, PathFinder, CONNECTION_COST};
use crate::ratio::Ratio;

verus! {

/// Why a topology description was rejected.
#[derive(Clone, Copy, PartialEq, Eq, Structural, Debug)]
pub enum TopologyError {
    /// A node lists itself as a neighbour.
    SelfLoop,
    /// A neighbour id is not below the node count.
    OutOfRange,
    /// More nodes than the kernel accepts.
    TooLarge,
}

/// One node of a topology description: its id and its neighbour ids.
#[derive(Clone, Debug, PartialEq)]
pub struct NodeDesc {
    pub node_id: u32,
    pub nodes: Vec<u32>,
}

/// A topology description: implicit node count, per-node neighbour lists.
/// Edges are undirected; listing `j` under `i` connects both directions.
#[derive(Clone, Debug, PartialEq)]
pub struct GraphDesc {
    pub nodes: Vec<NodeDesc>,
}

/// The `e`-th neighbour entry of description row `k` is in range and is
/// not a self-loop.
pub open spec fn edge_ok(d: GraphDesc, k: int, e: int) -> bool {
    &&& d.nodes@[k].node_id < d.nodes@.len()
    &&& d.nodes@[k].nodes@[e] < d.nodes@.len()
    &&& d.nodes@[k].nodes@[e] != d.nodes@[k].node_id
}

/// Every listed edge stays in range and never connects a node to itself.
pub open spec fn desc_ok(d: GraphDesc) -> bool {
    forall|k: int, e: int|
        0 <= k < d.nodes@.len() && 0 <= e < d.nodes@[k].nodes@.len()
            ==> #[trigger] edge_ok(d, k, e)
}

/// The `e`-th neighbour entry of description row `k` names the undirected
/// edge `{i, j}`.
pub open spec fn desc_lists_edge(d: GraphDesc, k: int, e: int, i: int, j: int) -> bool {
    (d.nodes@[k].node_id == i && d.nodes@[k].nodes@[e] == j)
        || (d.nodes@[k].node_id == j && d.nodes@[k].nodes@[e] == i)
}

/// The description lists the undirected edge `{i, j}`.
pub open spec fn desc_edge(d: GraphDesc, i: int, j: int) -> bool {
    exists|k: int, e: int|
        0 <= k < d.nodes@.len() && 0 <= e < d.nodes@[k].nodes@.len()
            && #[trigger] desc_lists_edge(d, k, e, i, j)
}

/// `{i, j}` is the unordered pair `{a, b}`.
pub open spec fn links(i: int, j: int, a: int, b: int) -> bool {
    (i == a && j == b) || (i == b && j == a)
}

/// The edge set of the ten-node sample topology.
pub open spec fn example_edge(i: int, j: int) -> bool {
    ||| links(i, j, 0, 1)
    ||| links(i, j, 0, 2)
    ||| links(i, j, 0, 3)
    ||| links(i, j, 1, 4)
    ||| links(i, j, 1, 5)
    ||| links(i, j, 2, 4)
    ||| links(i, j, 2, 6)
    ||| links(i, j, 3, 5)
    ||| links(i, j, 3, 6)
    ||| links(i, j, 4, 9)
    ||| links(i, j, 5, 8)
    ||| links(i, j, 6, 7)
}

impl GraphDesc {
    pub open spec fn spec_node_count(self) -> int {
        self.nodes@.len() as int
    }

    pub fn nodes(&self) -> (r: &Vec<NodeDesc>)
        ensures
            r@ == self.nodes@,
    {
        &self.nodes
    }

    pub fn node_count(&self) -> (r: usize)
        ensures
            r as int == self.spec_node_count(),
    {
        self.nodes.len()
    }

    /// A ten-node sample topology: one well-connected core (nodes 0 to 6)
    /// and three leaves (7, 8, 9).
    pub fn example() -> (r: GraphDesc)
        ensures
            desc_ok(r),
            r.spec_node_count() == 10,
            forall|i: int, j: int| desc_edge(r, i, j) <==> example_edge(i, j),
    {
        let mut nodes: Vec<NodeDesc> = Vec::new();
        nodes.push(NodeDesc { node_id: 0, nodes: vec![1u32, 2u32, 3u32] });
        nodes.push(NodeDesc { node_id: 1, nodes: vec![4u32, 5u32] });
        nodes.push(NodeDesc { node_id: 2, nodes: vec![4u32, 6u32] });
        nodes.push(NodeDesc { node_id: 3, nodes: vec![5u32, 6u32] });
        nodes.push(NodeDesc { node_id: 4, nodes: vec![9u32] });
        nodes.push(NodeDesc { node_id: 5, nodes: vec![8u32] });
        nodes.push(NodeDesc { node_id: 6, nodes: vec![7u32] });
        nodes.push(NodeDesc { node_id: 7, nodes: Vec::new() });
        nodes.push(NodeDesc { node_id: 8, nodes: Vec::new() });
        nodes.push(NodeDesc { node_id: 9, nodes: Vec::new() });
        let r = GraphDesc { nodes };
        proof {
            assert forall|k: int, e: int|
                0 <= k < r.nodes@.len() && 0 <= e < r.nodes@[k].nodes@.len()
                implies #[trigger] edge_ok(r, k, e) by {
                assert(0 <= k < 10);
            }
            assert(desc_lists_edge(r, 0, 0, 0, 1));
            assert(desc_lists_edge(r, 0, 1, 0, 2));
            assert(desc_lists_edge(r, 0, 2, 0, 3));
            assert(desc_lists_edge(r, 1, 0, 1, 4));
            assert(desc_lists_edge(r, 1, 1, 1, 5));
            assert(desc_lists_edge(r, 2, 0, 2, 4));
            assert(desc_lists_edge(r, 2, 1, 2, 6));
            assert(desc_lists_edge(r, 3, 0, 3, 5));
            assert(desc_lists_edge(r, 3, 1, 3, 6));
            assert(desc_lists_edge(r, 4, 0, 4, 9));
            assert(desc_lists_edge(r, 5, 0, 5, 8));
            assert(desc_lists_edge(r, 6, 0, 6, 7));
            assert forall|i: int, j: int| desc_edge(r, i, j) implies example_edge(i, j) by {
                let (k, e) = choose|k: int, e: int|
                    0 <= k < r.nodes@.len() && 0 <= e < r.nodes@[k].nodes@.len()
                        && #[trigger] desc_lists_edge(r, k, e, i, j);
                assert(0 <= k < 10);
            }
            assert forall|i: int, j: int| example_edge(i, j) implies desc_edge(r, i, j) by {
                if links(i, j, 0, 1) {
                    assert(desc_lists_edge(r, 0, 0, i, j));
                } else if links(i, j, 0, 2) {
                    assert(desc_lists_edge(r, 0, 1, i, j));
                } else if links(i, j, 0, 3) {
                    assert(desc_lists_edge(r, 0, 2, i, j));
                } else if links(i, j, 1, 4) {
                    assert(desc_lists_edge(r, 1, 0, i, j));
                } else if links(i, j, 1, 5) {
                    assert(desc_lists_edge(r, 1, 1, i, j));
                } else if links(i, j, 2, 4) {
                    assert(desc_lists_edge(r, 2, 0, i, j));
                } else if links(i, j, 2, 6) {
                    assert(desc_lists_edge(r, 2, 1, i, j));
                } else if links(i, j, 3, 5) {
                    assert(desc_lists_edge(r, 3, 0, i, j));
                } else if links(i, j, 3, 6) {
                    assert(desc_lists_edge(r, 3, 1, i, j));
                } else if links(i, j, 4, 9) {
                    assert(desc_lists_edge(r, 4, 0, i, j));
                } else if links(i, j, 5, 8) {
                    assert(desc_lists_edge(r, 5, 0, i, j));
                } else {
                    assert(desc_lists_edge(r, 6, 0, i, j));
                }
            }
        }
        r
    }
}

/// Both directions of the edge listed at description row `k`, entry `e`
/// are set in `adjacency`.
pub open spec fn row_edge_set(adjacency: Mat<bool>, d: GraphDesc, k: int, e: int) -> bool {
    adjacency.spec_get(d.nodes@[k].node_id as int, d.nodes@[k].nodes@[e] as int)
        && adjacency.spec_get(d.nodes@[k].nodes@[e] as int, d.nodes@[k].node_id as int)
}

/// The network: one liveness tracker, one boolean adjacency matrix, one
/// path finder.
#[verifier::ext_equal]
#[derive(Debug, PartialEq)]
pub struct Graph {
    pub tracker: NodeStatusTracker,
    pub adjacency: Mat<bool>,
    pub path_finder: PathFinder,
}

impl Graph {
    pub open spec fn spec_n(self) -> int {
        self.tracker.spec_node_count()
    }

    /// Structural soundness: matrices sized to the universe, every visible
    /// edge connects two alive nodes, the adjacency matrix is symmetric,
    /// and the path-membership record never distinguishes the pair order.
    pub open spec fn wf(self) -> bool {
        &&& self.tracker.wf()
        &&& self.spec_n() <= MAX_NODES
        &&& self.adjacency.wf()
        &&& self.adjacency.spec_n() == self.spec_n()
        &&& self.adjacency.fill == false
        &&& self.path_finder.wf(self.spec_n())
        &&& forall|i: int, j: int|
            self.adjacency.in_range(i, j) && #[trigger] self.adjacency.spec_get(i, j)
                ==> self.tracker.spec_is_alive(i) && self.tracker.spec_is_alive(j)
        &&& forall|i: int, j: int|
            self.adjacency.in_range(i, j)
                ==> #[trigger] self.adjacency.spec_get(i, j) == self.adjacency.spec_get(j, i)
        &&& forall|x: int, a: int, b: int|
            0 <= x < self.spec_n() && self.path_finder.paths@[x].in_range(a, b)
                && #[trigger] self.path_finder.spec_contains(a, b, x)
                ==> self.path_finder.spec_contains(b, a, x)
    }

    /// Builds a graph from a topology description, rejecting oversized
    /// universes, self-loops and out-of-range neighbour ids. On success the
    /// adjacency matrix holds exactly the described edges, symmetrically,
    /// and every node is alive.
    pub fn from_desc(desc: &GraphDesc) -> (r: Result<Graph, TopologyError>)
        ensures
            r is Ok <==> (desc.spec_node_count() <= MAX_NODES && desc_ok(*desc)),
            r == Err::<Graph, TopologyError>(TopologyError::TooLarge)
                <==> desc.spec_node_count() > MAX_NODES,
            r matches Ok(g) ==> ({
                &&& g.wf()
                &&& g.spec_n() == desc.spec_node_count()
                &&& g.tracker.spec_alive() == desc.spec_node_count()
                &&& forall|i: int| 0 <= i < g.spec_n() ==> g.tracker.spec_is_alive(i)
                &&& forall|i: int, j: int| g.adjacency.in_range(i, j)
                    ==> g.adjacency.spec_get(i, j) == desc_edge(*desc, i, j)
                &&& forall|a: int, b: int| g.path_finder.costs.in_range(a, b)
                    ==> g.path_finder.costs.spec_get(a, b) == 0
                &&& forall|x: int, a: int, b: int| 0 <= x < g.spec_n()
                    && #[trigger] g.path_finder.paths@[x].in_range(a, b)
                    ==> !g.path_finder.paths@[x].spec_get(a, b)
            }),
    {
        let count = desc.nodes.len();
        if count > MAX_NODES {
            return Err(TopologyError::TooLarge);
        }
        let tracker = NodeStatusTracker::new(count);
        let path_finder = PathFinder::new(count);
        let mut adjacency = Mat::new(count, false);

        let mut k: usize = 0;
        while k < count
            invariant
                k <= count,
                count as int == desc.spec_node_count(),
                count <= MAX_NODES,
                adjacency.wf(),
                adjacency.spec_n() == count as int,
                adjacency.fill == false,
                forall|k2: int, e2: int|
                    0 <= k2 < k as int && 0 <= e2 < desc.nodes@[k2].nodes@.len()
                        ==> #[trigger] edge_ok(*desc, k2, e2),
                forall|i: int, j: int| adjacency.in_range(i, j)
                    ==> (adjacency.spec_get(i, j) ==> desc_edge(*desc, i, j)),
                forall|i: int, j: int| adjacency.in_range(i, j)
                    ==> adjacency.spec_get(i, j) == adjacency.spec_get(j, i),
                forall|k2: int, e2: int|
                    0 <= k2 < k as int && 0 <= e2 < desc.nodes@[k2].nodes@.len()
                        ==> #[trigger] row_edge_set(adjacency, *desc, k2, e2),
            decreases count - k,
        {
            let nd = &desc.nodes[k];
            let i_id = nd.node_id;
            let mut e: usize = 0;
            let elen = nd.nodes.len();
            while e < elen
                invariant
                    e <= elen,
                    elen as int == desc.nodes@[k as int].nodes@.len(),
                    k < count,
                    count as int == desc.spec_node_count(),
                    count <= MAX_NODES,
                    i_id == desc.nodes@[k as int].node_id,
                    nd == desc.nodes@[k as int],
                    adjacency.wf(),
                    adjacency.spec_n() == count as int,
                    adjacency.fill == false,
                    forall|k2: int, e2: int|
                        0 <= k2 < k as int && 0 <= e2 < desc.nodes@[k2].nodes@.len()
                            ==> #[trigger] edge_ok(*desc, k2, e2),
                    forall|e2: int| 0 <= e2 < e as int ==> #[trigger] edge_ok(*desc, k as int, e2),
                    forall|i: int, j: int| adjacency.in_range(i, j)
                        ==> (adjacency.spec_get(i, j) ==> desc_edge(*desc, i, j)),
                    forall|i: int, j: int| adjacency.in_range(i, j)
                        ==> adjacency.spec_get(i, j) == adjacency.spec_get(j, i),
                    forall|k2: int, e2: int|
                        0 <= k2 < k as int && 0 <= e2 < desc.nodes@[k2].nodes@.len()
                            ==> #[trigger] row_edge_set(adjacency, *desc, k2, e2),
                    forall|e2: int| 0 <= e2 < e as int
                        ==> #[trigger] row_edge_set(adjacency, *desc, k as int, e2),
                decreases elen - e,
            {
                let j_id = nd.nodes[e];
                if i_id == j_id {
                    proof {
                        assert(!edge_ok(*desc, k as int, e as int));
                        assert(!desc_ok(*desc)) by {
                            if desc_ok(*desc) {
                                assert(edge_ok(*desc, k as int, e as int));
                            }
                        }
                    }
                    return Err(TopologyError::SelfLoop);
                }
                if !(i_id < count as u32) || !(j_id < count as u32) {
                    proof {
                        assert(!edge_ok(*desc, k as int, e as int));
                        assert(!desc_ok(*desc)) by {
                            if desc_ok(*desc) {
                                assert(edge_ok(*desc, k as int, e as int));
                            }
                        }
                    }
                    return Err(TopologyError::OutOfRange);
                }
                let ni = Node::new(i_id);
                let nj = Node::new(j_id);
                let ghost pre = adjacency;
                adjacency.set(ni, nj);
                adjacency.set(nj, ni);
                proof {
                    let ghost kk = k as int;
                    let ghost ee = e as int;
                    assert(desc.nodes@[kk].node_id == i_id);
                    assert(desc.nodes@[kk].nodes@[ee] == j_id);
                    assert(edge_ok(*desc, kk, ee));
                    assert(desc_lists_edge(*desc, kk, ee, i_id as int, j_id as int));
                    assert(desc_lists_edge(*desc, kk, ee, j_id as int, i_id as int));
                    assert(desc_edge(*desc, i_id as int, j_id as int));
                    assert(desc_edge(*desc, j_id as int, i_id as int));
                    assert forall|e2: int| 0 <= e2 < e as int + 1
                        implies #[trigger] row_edge_set(adjacency, *desc, kk, e2) by {
                        if e2 < e as int {
                            assert(edge_ok(*desc, kk, e2));
                            assert(row_edge_set(pre, *desc, kk, e2));
                            let x = desc.nodes@[kk].node_id as int;
                            let y = desc.nodes@[kk].nodes@[e2] as int;
                            assert(pre.spec_get(x, y) && pre.spec_get(y, x));
                            assert(pre.in_range(x, y) && pre.in_range(y, x));
                            assert(adjacency.spec_get(x, y) && adjacency.spec_get(y, x));
                        } else {
                            assert(adjacency.spec_get(i_id as int, j_id as int)
                                && adjacency.spec_get(j_id as int, i_id as int));
                        }
                    }
                    assert forall|k2: int, e2: int|
                        0 <= k2 < k as int && 0 <= e2 < desc.nodes@[k2].nodes@.len()
                        implies #[trigger] row_edge_set(adjacency, *desc, k2, e2) by {
                        assert(edge_ok(*desc, k2, e2));
                        assert(row_edge_set(pre, *desc, k2, e2));
                        let x = desc.nodes@[k2].node_id as int;
                        let y = desc.nodes@[k2].nodes@[e2] as int;
                        assert(pre.spec_get(x, y) && pre.spec_get(y, x));
                        assert(pre.in_range(x, y) && pre.in_range(y, x));
                        assert(adjacency.spec_get(x, y) && adjacency.spec_get(y, x));
                    }
                }
                e += 1;
            }
            k += 1;
        }

        let g = Graph { tracker, adjacency, path_finder };
        proof {
            assert(desc_ok(*desc));
            assert forall|i: int, j: int| g.adjacency.in_range(i, j)
                implies g.adjacency.spec_get(i, j) == desc_edge(*desc, i, j) by {
                if desc_edge(*desc, i, j) {
                    let (k2, e2) = choose|k2: int, e2: int|
                        0 <= k2 < desc.nodes@.len() && 0 <= e2 < desc.nodes@[k2].nodes@.len()
                            && #[trigger] desc_lists_edge(*desc, k2, e2, i, j);
                    assert(row_edge_set(g.adjacency, *desc, k2, e2));
                }
            }
        }
        Ok(g)
    }

    /// The ten-node sample graph: its adjacency matrix holds exactly the
    /// sample edges, symmetrically, with every node alive.
    pub fn example() -> (r: Graph)
        ensures
            r.wf(),
            r.spec_n() == 10,
            r.tracker.spec_alive() == 10,
            forall|i: int| 0 <= i < 10 ==> r.tracker.spec_is_alive(i),
            forall|i: int, j: int| r.adjacency.in_range(i, j)
                ==> r.adjacency.spec_get(i, j) == example_edge(i, j),
    {
        let desc = GraphDesc::example();
        let built = Graph::from_desc(&desc);
        match built {
            Ok(g) => g,
            Err(_) => {
                proof {
                    assert(false);
                }
                vstd::pervasive::unreached()
            },
        }
    }

    pub fn node_count(&self) -> (r: usize)
        ensures
            r as int == self.spec_n(),
    {
        self.tracker.node_count()
    }

    pub fn alive(&self) -> (r: usize)
        ensures
            r as int == self.tracker.spec_alive(),
    {
        self.tracker.alive()
    }

    pub fn is_adjacent(&self, i: Node, j: Node) -> (r: bool)
        requires
            self.wf(),
            self.adjacency.in_range(i.spec_idx(), j.spec_idx()),
        ensures
            r == self.adjacency.spec_get(i.spec_idx(), j.spec_idx()),
    {
        self.adjacency.is_set(i, j)
    }

    /// Recomputes shortest paths from every alive source. Fails — leaving
    /// whatever rows it already wrote — exactly when some alive source
    /// cannot reach some alive node; the alive subgraph is then fragmented.
    #[verifier::rlimit(100)]
    pub fn update_paths(&mut self) -> (r: Option<()>)
        requires
            old(self).wf(),
        ensures
            final(self).wf(),
            final(self).tracker == old(self).tracker,
            final(self).adjacency == old(self).adjacency,
            r is Some ==> forall|i: int, j: int|
                final(self).tracker.spec_is_alive(i) && final(self).tracker.spec_is_alive(j)
                    && i != j
                    ==> CONNECTION_COST
                        <= #[trigger] final(self).path_finder.costs.spec_get(i, j)
                        <= 2 * final(self).spec_n(),
            r is Some ==> forall|i: int, j: int|
                final(self).tracker.spec_is_alive(i) && final(self).tracker.spec_is_alive(j)
                    && i != j
                    ==> #[trigger] crate::path_finder::endpoint_marks(
                            final(self).path_finder, i, j),
            // costs are true shortest distances over the alive subgraph:
            // realized by some alive path, beaten by none — hence symmetric
            r is Some ==> forall|i: int| final(self).tracker.spec_is_alive(i)
                ==> #[trigger] costs_are_distances(final(self).path_finder,
                        final(self).adjacency, final(self).tracker, i),
            r is Some ==> forall|i: int, j: int|
                final(self).tracker.spec_is_alive(i) && final(self).tracker.spec_is_alive(j)
                    && i != j
                    ==> #[trigger] final(self).path_finder.costs.spec_get(i, j)
                        == final(self).path_finder.costs.spec_get(j, i),
            r is Some ==> forall|i: int, j: int|
                final(self).tracker.spec_is_alive(i) && final(self).tracker.spec_is_alive(j)
                    ==> #[trigger] reaches(final(self).adjacency, final(self).tracker, i, j),
            // some shortest path realizing each recorded cost is recorded
            // node for node in the membership matrices, in both pair orders
            r is Some ==> forall|i: int, j: int|
                final(self).tracker.spec_is_alive(i) && final(self).tracker.spec_is_alive(j)
                    && i != j
                    ==> #[trigger] marked_path(final(self).path_finder,
                            final(self).adjacency, final(self).tracker, i, j,
                            final(self).path_finder.costs.spec_get(i, j) as int),
            r is None ==> exists|s: int, t: int|
                old(self).tracker.spec_is_alive(s) && old(self).tracker.spec_is_alive(t)
                    && !reaches(old(self).adjacency, old(self).tracker, s, t),
    {
        let ghost n_spec = self.tracker.spec_node_count();
        let alive_vec = self.tracker.iter_alive().into_vec();
        let ghost listing = alive_listing(self.tracker.status());
        proof {
            lemma_alive_listing_props(self.tracker.status());
        }
        let alive_count = alive_vec.len();
        let mut a: usize = 0;
        while a < alive_count
            invariant
                a <= alive_count,
                alive_count as int == listing.len(),
                alive_vec@ == listing,
                n_spec == self.tracker.spec_node_count(),
                self.tracker == old(self).tracker,
                self.adjacency == old(self).adjacency,
                self.wf(),
                forall|c: int| 0 <= c < listing.len()
                    ==> 0 <= #[trigger] listing[c].spec_idx() < n_spec
                        && self.tracker.spec_is_alive(listing[c].spec_idx()),
                forall|i: int| 0 <= i < n_spec && self.tracker.spec_is_alive(i)
                    ==> exists|c: int|
                        0 <= c < listing.len() && #[trigger] listing[c].spec_idx() == i,
                forall|c: int, j: int| 0 <= c < a as int && self.tracker.spec_is_alive(j)
                    && j != #[trigger] listing[c].spec_idx()
                    ==> CONNECTION_COST
                        <= #[trigger] self.path_finder.costs.spec_get(listing[c].spec_idx(), j)
                        <= 2 * n_spec,
                forall|c: int, j: int| 0 <= c < a as int && self.tracker.spec_is_alive(j)
                    && j != listing[c].spec_idx()
                    ==> #[trigger] crate::path_finder::endpoint_marks(self.path_finder,
                            listing[c].spec_idx(), j),
                forall|c: int| 0 <= c < a as int
                    ==> #[trigger] costs_are_distances(self.path_finder, self.adjacency,
                            self.tracker, listing[c].spec_idx()),
                forall|c: int, j: int| 0 <= c < a as int && self.tracker.spec_is_alive(j)
                    && j != listing[c].spec_idx()
                    ==> #[trigger] marked_path(self.path_finder, self.adjacency,
                            self.tracker, listing[c].spec_idx(), j,
                            self.path_finder.costs.spec_get(listing[c].spec_idx(), j)
                                as int),
            decreases alive_count - a,
        {
            let src = alive_vec[a];
            let ghost pre_pf = self.path_finder;
            let ghost s = src.spec_idx();
            let outcome = self.path_finder.find_shortest_path_for(
                &self.tracker,
                &self.adjacency,
                src,
            );
            if outcome.is_none() {
                return None;
            }
            proof {
                assert forall|c: int, j: int|
                    0 <= c < a as int + 1 && self.tracker.spec_is_alive(j)
                        && j != #[trigger] listing[c].spec_idx()
                    implies CONNECTION_COST
                        <= #[trigger] self.path_finder.costs.spec_get(listing[c].spec_idx(), j)
                        <= 2 * n_spec by {
                    let i = listing[c].spec_idx();
                    if c < a as int {
                        assert(i != s ==> self.path_finder.costs.spec_get(i, j)
                            == pre_pf.costs.spec_get(i, j));
                        if i == s {
                            assert(CONNECTION_COST <= self.path_finder.costs.spec_get(i, j)
                                <= 2 * n_spec);
                        }
                    }
                }
                assert forall|c: int, j: int|
                    0 <= c < a as int + 1 && self.tracker.spec_is_alive(j)
                        && j != listing[c].spec_idx()
                    implies #[trigger] crate::path_finder::endpoint_marks(self.path_finder,
                            listing[c].spec_idx(), j) by {
                    let i = listing[c].spec_idx();
                    if c < a as int {
                        assert(crate::path_finder::endpoint_marks(pre_pf, i, j));
                        assert(pre_pf.spec_contains(i, j, i) && pre_pf.spec_contains(i, j, j)
                            && pre_pf.spec_contains(j, i, i) && pre_pf.spec_contains(j, i, j));
                        assert(0 <= i < n_spec && 0 <= j < n_spec && i != j);
                        assert(pre_pf.paths@[i].in_range(i, j)
                            && pre_pf.paths@[i].in_range(j, i));
                        assert(pre_pf.paths@[j].in_range(i, j)
                            && pre_pf.paths@[j].in_range(j, i));
                        assert(self.path_finder.spec_contains(i, j, i)
                            && self.path_finder.spec_contains(i, j, j)
                            && self.path_finder.spec_contains(j, i, i)
                            && self.path_finder.spec_contains(j, i, j));
                    } else {
                        assert(i == s);
                        assert(crate::path_finder::endpoint_marks(self.path_finder, s, j));
                    }
                }
                assert forall|x: int, a3: int, b3: int|
                    0 <= x < n_spec && self.path_finder.paths@[x].in_range(a3, b3)
                        && #[trigger] self.path_finder.spec_contains(a3, b3, x)
                    implies self.path_finder.spec_contains(b3, a3, x) by {
                    assert(pre_pf.paths@[x].in_range(a3, b3));
                    if pre_pf.spec_contains(a3, b3, x) {
                        assert(pre_pf.spec_contains(b3, a3, x));
                        assert(pre_pf.paths@[x].in_range(b3, a3));
                        assert(self.path_finder.paths@[x].spec_get(b3, a3));
                    } else {
                        assert(self.path_finder.paths@[x].spec_get(a3, b3)
                            && !pre_pf.paths@[x].spec_get(a3, b3));
                        assert(self.path_finder.paths@[x].spec_get(b3, a3));
                    }
                }
                assert forall|c: int| 0 <= c < a as int + 1
                    implies #[trigger] costs_are_distances(self.path_finder, self.adjacency,
                        self.tracker, listing[c].spec_idx()) by {
                    let i = listing[c].spec_idx();
                    if i != s {
                        assert(c < a as int);
                        assert(costs_are_distances(pre_pf, self.adjacency, self.tracker, i));
                        assert forall|j: int|
                            self.tracker.spec_is_alive(j) && j != i
                            implies #[trigger] self.path_finder.costs.spec_get(i, j)
                                == pre_pf.costs.spec_get(i, j) by {
                            assert(0 <= i < n_spec && 0 <= j < n_spec && i != j);
                        }
                        lemma_costs_are_distances_stable(
                            pre_pf,
                            self.path_finder,
                            self.adjacency,
                            self.tracker,
                            i,
                        );
                    } else {
                        assert(costs_are_distances(self.path_finder, self.adjacency,
                            self.tracker, s));
                    }
                }
                assert forall|c: int, j: int|
                    0 <= c < a as int + 1 && self.tracker.spec_is_alive(j)
                        && j != listing[c].spec_idx()
                    implies #[trigger] marked_path(self.path_finder, self.adjacency,
                        self.tracker, listing[c].spec_idx(), j,
                        self.path_finder.costs.spec_get(listing[c].spec_idx(), j)
                            as int) by {
                    let i = listing[c].spec_idx();
                    if i != s {
                        assert(c < a as int);
                        assert(0 <= i < n_spec && 0 <= j < n_spec && i != j);
                        assert(marked_path(pre_pf, self.adjacency, self.tracker, i, j,
                            pre_pf.costs.spec_get(i, j) as int));
                        lemma_marked_path_mono(pre_pf, self.path_finder, self.adjacency,
                            self.tracker, i, j, pre_pf.costs.spec_get(i, j) as int);
                        assert(self.path_finder.costs.spec_get(i, j)
                            == pre_pf.costs.spec_get(i, j));
                    } else {
                        assert(marked_path(self.path_finder, self.adjacency, self.tracker,
                            s, j, self.path_finder.costs.spec_get(s, j) as int));
                    }
                }
            }
            a += 1;
        }
        proof {
            assert forall|i: int, j: int|
                self.tracker.spec_is_alive(i) && self.tracker.spec_is_alive(j) && i != j
                implies CONNECTION_COST <= #[trigger] self.path_finder.costs.spec_get(i, j)
                    <= 2 * n_spec
                    && crate::path_finder::endpoint_marks(self.path_finder, i, j) by {
                let c = choose|c: int|
                    0 <= c < listing.len() && #[trigger] listing[c].spec_idx() == i;
                assert(crate::path_finder::endpoint_marks(self.path_finder,
                    listing[c].spec_idx(), j));
            }
            assert forall|i: int| self.tracker.spec_is_alive(i)
                implies #[trigger] costs_are_distances(self.path_finder, self.adjacency,
                    self.tracker, i) by {
                let c = choose|c: int|
                    0 <= c < listing.len() && #[trigger] listing[c].spec_idx() == i;
            }
            assert forall|i: int, j: int|
                self.tracker.spec_is_alive(i) && self.tracker.spec_is_alive(j) && i != j
                implies #[trigger] marked_path(self.path_finder, self.adjacency,
                    self.tracker, i, j,
                    self.path_finder.costs.spec_get(i, j) as int) by {
                let c = choose|c: int|
                    0 <= c < listing.len() && #[trigger] listing[c].spec_idx() == i;
                assert(marked_path(self.path_finder, self.adjacency, self.tracker,
                    listing[c].spec_idx(), j,
                    self.path_finder.costs.spec_get(listing[c].spec_idx(), j) as int));
            }
            lemma_costs_symmetric(*self);
            assert forall|i: int, j: int|
                self.tracker.spec_is_alive(i) && self.tracker.spec_is_alive(j)
                implies #[trigger] reaches(self.adjacency, self.tracker, i, j) by {
                if i == j {
                    crate::path_finder::lemma_reaches_self(self.adjacency, self.tracker, i);
                } else {
                    assert(costs_are_distances(self.path_finder, self.adjacency,
                        self.tracker, i));
                    assert(dist_realized(self.adjacency, self.tracker, i, j,
                        self.path_finder.costs.spec_get(i, j) as int));
                    let p = choose|p: Seq<int>|
                        is_alive_path(self.adjacency, self.tracker, p) && p.first() == i
                            && p.last() == j
                            && 2 * (p.len() - 1)
                                == self.path_finder.costs.spec_get(i, j) as int;
                    assert(is_alive_path(self.adjacency, self.tracker, p)
                        && p.first() == i && p.last() == j);
                }
            }
        }
        Some(())
    }

    /// Removes one alive node: marks it dead and zeroes its row and its
    /// column in the adjacency matrix — an edge to or from a dead node is
    /// never visible again. The path finder's stale entries for it are
    /// left as they are; they are refreshed by the next path update
    /// before anyone reads them.
    pub fn delete(&mut self, node: Node)
        requires
            old(self).wf(),
            old(self).tracker.spec_is_alive(node.spec_idx()),
        ensures
            final(self).wf(),
            final(self).spec_n() == old(self).spec_n(),
            final(self).tracker.spec_alive() == old(self).tracker.spec_alive() - 1,
            final(self).tracker.status()
                == old(self).tracker.status().update(node.spec_idx(), false),
            !final(self).tracker.spec_is_alive(node.spec_idx()),
            forall|i: int| 0 <= i < final(self).spec_n() && i != node.spec_idx()
                ==> final(self).tracker.spec_is_alive(i)
                    == old(self).tracker.spec_is_alive(i),
            forall|j: int| final(self).adjacency.in_range(node.spec_idx(), j)
                ==> !final(self).adjacency.spec_get(node.spec_idx(), j),
            forall|j: int| final(self).adjacency.in_range(j, node.spec_idx())
                ==> !final(self).adjacency.spec_get(j, node.spec_idx()),
            forall|a: int, b: int| final(self).adjacency.in_range(a, b)
                && a != node.spec_idx() && b != node.spec_idx()
                ==> final(self).adjacency.spec_get(a, b)
                    == old(self).adjacency.spec_get(a, b),
            final(self).path_finder == old(self).path_finder,
    {
        let ghost entry = *self;
        self.tracker.delete(node);
        self.adjacency.delete(&self.tracker, node);
        let ghost mid = *self;
        let n = self.tracker.node_count();
        let mut j: usize = 0;
        while j < n
            invariant
                j <= n,
                n as int == self.spec_n(),
                self.tracker == mid.tracker,
                self.path_finder == mid.path_finder,
                0 <= node.spec_idx() < n as int,
                self.adjacency.wf(),
                self.adjacency.spec_n() == n as int,
                self.adjacency.fill == false,
                forall|b: int| 0 <= b < j as int && b != node.spec_idx()
                    ==> !self.adjacency.spec_get(node.spec_idx(), b),
                forall|a: int, b: int| self.adjacency.in_range(a, b) && a != node.spec_idx()
                    ==> self.adjacency.spec_get(a, b) == mid.adjacency.spec_get(a, b),
            decreases n - j,
        {
            if j != node.idx() {
                self.adjacency.write(node, Node::new(j as u32), false);
            }
            j += 1;
        }
        proof {
            // the outgoing row is cleared, the incoming column was cleared
            // for nodes alive after the removal, and a node dead before the
            // removal never had a visible edge in the first place
            assert forall|b: int| self.adjacency.in_range(node.spec_idx(), b)
                implies !self.adjacency.spec_get(node.spec_idx(), b) by {}
            assert forall|a: int| self.adjacency.in_range(a, node.spec_idx())
                implies !self.adjacency.spec_get(a, node.spec_idx()) by {
                if self.tracker.spec_is_alive(a) {
                    assert(mid.adjacency.spec_get(a, node.spec_idx()) == false);
                } else {
                    assert(!entry.tracker.spec_is_alive(a));
                    assert(mid.adjacency.spec_get(a, node.spec_idx())
                        == entry.adjacency.spec_get(a, node.spec_idx()));
                    assert(!entry.adjacency.spec_get(a, node.spec_idx()));
                }
            }
            assert forall|a: int, b: int|
                self.adjacency.in_range(a, b) && a != node.spec_idx()
                    && b != node.spec_idx()
                implies self.adjacency.spec_get(a, b)
                    == entry.adjacency.spec_get(a, b) by {
                assert(self.adjacency.spec_get(a, b) == mid.adjacency.spec_get(a, b));
            }
            assert forall|i: int, j2: int|
                self.adjacency.in_range(i, j2) && #[trigger] self.adjacency.spec_get(i, j2)
                implies self.tracker.spec_is_alive(i) && self.tracker.spec_is_alive(j2) by {
                assert(i != node.spec_idx() && j2 != node.spec_idx());
                assert(self.adjacency.spec_get(i, j2) == entry.adjacency.spec_get(i, j2));
                assert(entry.tracker.spec_is_alive(i) && entry.tracker.spec_is_alive(j2));
            }
            assert forall|i: int, j2: int| self.adjacency.in_range(i, j2)
                implies #[trigger] self.adjacency.spec_get(i, j2)
                    == self.adjacency.spec_get(j2, i) by {
                if i != node.spec_idx() && j2 != node.spec_idx() {
                    assert(self.adjacency.spec_get(i, j2)
                        == entry.adjacency.spec_get(i, j2));
                    assert(self.adjacency.spec_get(j2, i)
                        == entry.adjacency.spec_get(j2, i));
                } else {
                    assert(!self.adjacency.spec_get(i, j2));
                    assert(!self.adjacency.spec_get(j2, i));
                }
            }
        }
    }

    /// A deep copy, field for field.
    pub fn duplicate(&self) -> (r: Graph)
        ensures
            same_graph(*self, r),
    {
        Graph {
            tracker: NodeStatusTracker {
                nodes: copy_vec(&self.tracker.nodes),
                alive: self.tracker.alive,
            },
            adjacency: self.adjacency.duplicate(),
            path_finder: PathFinder {
                costs: self.path_finder.costs.duplicate(),
                paths: duplicate_mats(&self.path_finder.paths),
            },
        }
    }
}

/// `b` holds the same state as `a`, cell for cell: same statuses and alive
/// count, same adjacency, same costs and path memberships.
pub open spec fn same_graph(a: Graph, b: Graph) -> bool {
    &&& b.tracker.nodes@ == a.tracker.nodes@
    &&& b.tracker.alive == a.tracker.alive
    &&& b.adjacency.array@ == a.adjacency.array@
    &&& b.adjacency.node_count == a.adjacency.node_count
    &&& b.adjacency.fill == a.adjacency.fill
    &&& b.path_finder.costs.array@ == a.path_finder.costs.array@
    &&& b.path_finder.costs.node_count == a.path_finder.costs.node_count
    &&& b.path_finder.costs.fill == a.path_finder.costs.fill
    &&& b.path_finder.paths@.len() == a.path_finder.paths@.len()
    &&& forall|x: int| 0 <= x < a.path_finder.paths@.len()
        ==> (#[trigger] b.path_finder.paths@[x]).array@ == a.path_finder.paths@[x].array@
            && b.path_finder.paths@[x].node_count == a.path_finder.paths@[x].node_count
            && b.path_finder.paths@[x].fill == a.path_finder.paths@[x].fill
}

/// Same state carries well-formedness and every observable over.
pub proof fn lemma_same_graph(a: Graph, b: Graph)
    requires
        same_graph(a, b),
        a.wf(),
    ensures
        b.wf(),
        b.spec_n() == a.spec_n(),
        b.tracker.spec_alive() == a.tracker.spec_alive(),
        b.tracker.status() == a.tracker.status(),
        forall|i: int, j: int| #[trigger] b.adjacency.spec_get(i, j)
            == a.adjacency.spec_get(i, j),
        forall|i: int, j: int| #[trigger] b.path_finder.costs.spec_get(i, j)
            == a.path_finder.costs.spec_get(i, j),
        forall|s: int, t: int, x: int| 0 <= x < a.path_finder.paths@.len()
            ==> #[trigger] b.path_finder.spec_contains(s, t, x)
                == a.path_finder.spec_contains(s, t, x),
{
    assert forall|x: int| 0 <= x < a.spec_n()
        implies (#[trigger] b.path_finder.paths@[x]).wf()
            && b.path_finder.paths@[x].spec_n() == a.spec_n()
            && b.path_finder.paths@[x].fill == false by {
        assert(a.path_finder.paths@[x].wf());
    }
    assert forall|i: int, j: int|
        b.adjacency.in_range(i, j) && #[trigger] b.adjacency.spec_get(i, j)
        implies b.tracker.spec_is_alive(i) && b.tracker.spec_is_alive(j) by {
        assert(b.adjacency.spec_get(i, j) == a.adjacency.spec_get(i, j));
    }
    assert forall|i: int, j: int|
        b.adjacency.in_range(i, j)
        implies #[trigger] b.adjacency.spec_get(i, j) == b.adjacency.spec_get(j, i) by {
        assert(b.adjacency.spec_get(i, j) == a.adjacency.spec_get(i, j));
        assert(b.adjacency.spec_get(j, i) == a.adjacency.spec_get(j, i));
    }
    assert forall|x: int, a2: int, b2: int|
        0 <= x < b.spec_n() && b.path_finder.paths@[x].in_range(a2, b2)
            && #[trigger] b.path_finder.spec_contains(a2, b2, x)
        implies b.path_finder.spec_contains(b2, a2, x) by {
        assert(b.path_finder.paths@[x].array@ == a.path_finder.paths@[x].array@);
        assert(a.path_finder.spec_contains(a2, b2, x));
        assert(a.path_finder.spec_contains(b2, a2, x));
    }
    assert forall|i: int, j: int| b.path_finder.costs.in_range(i, j)
        implies 0 <= #[trigger] b.path_finder.costs.spec_get(i, j) <= 2 * b.spec_n() by {
        assert(b.path_finder.costs.spec_get(i, j) == a.path_finder.costs.spec_get(i, j));
    }
}

/// Costs that are exactly the alive-path distances are symmetric: every
/// realizing path reverses over the symmetric alive adjacency.
proof fn lemma_costs_symmetric(g: Graph)
    requires
        g.wf(),
        forall|i: int| g.tracker.spec_is_alive(i)
            ==> #[trigger] costs_are_distances(g.path_finder, g.adjacency, g.tracker, i),
    ensures
        forall|i: int, j: int|
            g.tracker.spec_is_alive(i) && g.tracker.spec_is_alive(j) && i != j
                ==> #[trigger] g.path_finder.costs.spec_get(i, j)
                    == g.path_finder.costs.spec_get(j, i),
{
    assert forall|i: int, j: int|
        g.tracker.spec_is_alive(i) && g.tracker.spec_is_alive(j) && i != j
        implies #[trigger] g.path_finder.costs.spec_get(i, j)
            == g.path_finder.costs.spec_get(j, i) by {
        assert(costs_are_distances(g.path_finder, g.adjacency, g.tracker, i));
        assert(costs_are_distances(g.path_finder, g.adjacency, g.tracker, j));
        assert(dist_realized(g.adjacency, g.tracker, i, j,
            g.path_finder.costs.spec_get(i, j) as int));
        assert(dist_realized(g.adjacency, g.tracker, j, i,
            g.path_finder.costs.spec_get(j, i) as int));
        let p = choose|p: Seq<int>|
            is_alive_path(g.adjacency, g.tracker, p) && p.first() == i && p.last() == j
                && 2 * (p.len() - 1) == g.path_finder.costs.spec_get(i, j) as int;
        lemma_path_reverse(g.adjacency, g.tracker, p);
        let q = choose|q: Seq<int>|
            is_alive_path(g.adjacency, g.tracker, q) && q.first() == p.last()
                && q.last() == p.first() && q.len() == p.len();
        assert(2 * (q.len() - 1) >= g.path_finder.costs.spec_get(j, i));
        let p2 = choose|p2: Seq<int>|
            is_alive_path(g.adjacency, g.tracker, p2) && p2.first() == j && p2.last() == i
                && 2 * (p2.len() - 1) == g.path_finder.costs.spec_get(j, i) as int;
        lemma_path_reverse(g.adjacency, g.tracker, p2);
        let q2 = choose|q2: Seq<int>|
            is_alive_path(g.adjacency, g.tracker, q2) && q2.first() == p2.last()
                && q2.last() == p2.first() && q2.len() == p2.len();
        assert(2 * (q2.len() - 1) >= g.path_finder.costs.spec_get(i, j));
    }
}

/// Element-for-element copy of a vector of matrices.
fn duplicate_mats(v: &Vec<Mat<bool>>) -> (r: Vec<Mat<bool>>)
    ensures
        r@.len() == v@.len(),
        forall|p: int| 0 <= p < v@.len()
            ==> (#[trigger] r@[p]).array@ == v@[p].array@
                && r@[p].node_count == v@[p].node_count && r@[p].fill == v@[p].fill,
{
    let mut out: Vec<Mat<bool>> = Vec::new();
    let n = v.len();
    let mut k: usize = 0;
    while k < n
        invariant
            k <= n,
            n as int == v@.len(),
            out@.len() == k as int,
            forall|p: int| 0 <= p < k as int
                ==> (#[trigger] out@[p]).array@ == v@[p].array@
                    && out@[p].node_count == v@[p].node_count && out@[p].fill == v@[p].fill,
        decreases n - k,
    {
        let m = &v[k];
        out.push(m.duplicate());
        k += 1;
    }
    out
}

/// Per-node derived metrics attached to one graph snapshot: betweenness
/// counts, capacity thresholds, structural-efficiency values, and the
/// extremal nodes of each, plus the graph-scalar resilience values.
#[verifier::ext_equal]
#[derive(Debug, PartialEq)]
pub struct GraphInfo {
    pub zs: NADVec<Ratio>,
    pub zmax: Ratio,
    pub beta: Ratio,
    pub beta_delta: Ratio,
    pub capacity: NADVec<Ratio>,
    pub min_capacity: Node,
    pub max_capacity: Node,
    pub betweenness: NADVec<u64>,
    pub min_betweenness: Node,
    pub max_betweenness: Node,
}

impl GraphInfo {
    /// Sized to the universe; every ratio well formed, every betweenness
    /// count bounded by the pair count.
    pub open spec fn wf(self, n: int) -> bool {
        &&& self.zs.spec_len() == n
        &&& self.capacity.spec_len() == n
        &&& self.betweenness.spec_len() == n
        &&& self.zmax.wf()
        &&& self.beta.wf()
        &&& self.beta_delta.wf()
        &&& forall|i: int| 0 <= i < n ==> (#[trigger] self.zs.entries()[i]).wf()
        &&& forall|i: int| 0 <= i < n ==> (#[trigger] self.capacity.entries()[i]).wf()
        &&& forall|i: int| 0 <= i < n
            ==> #[trigger] self.betweenness.entries()[i]
                <= MAX_NODES as int * MAX_NODES as int
    }

    /// Fresh metrics: zeros everywhere, extremal nodes at the sentinel.
    pub fn new(tracker: &NodeStatusTracker) -> (r: GraphInfo)
        ensures
            r.wf(tracker.spec_node_count()),
            r.min_betweenness == Node::spec_invalid(),
            r.max_betweenness == Node::spec_invalid(),
            r.min_capacity == Node::spec_invalid(),
            r.max_capacity == Node::spec_invalid(),
            forall|i: int| 0 <= i < tracker.spec_node_count()
                ==> #[trigger] r.betweenness.entries()[i] == 0,
    {
        GraphInfo {
            zs: NADVec::new(tracker, Ratio::zero()),
            zmax: Ratio::zero(),
            beta: Ratio::zero(),
            beta_delta: Ratio::zero(),
            capacity: NADVec::new(tracker, Ratio::zero()),
            min_capacity: Node::invalid(),
            max_capacity: Node::invalid(),
            betweenness: NADVec::new(tracker, 0u64),
            min_betweenness: Node::invalid(),
            max_betweenness: Node::invalid(),
        }
    }

    /// A deep copy, field for field.
    pub fn duplicate(&self) -> (r: GraphInfo)
        ensures
            same_info(*self, r),
    {
        let r = GraphInfo {
            zs: NADVec { data: copy_vec(&self.zs.data) },
            zmax: self.zmax,
            beta: self.beta,
            beta_delta: self.beta_delta,
            capacity: NADVec { data: copy_vec(&self.capacity.data) },
            min_capacity: self.min_capacity,
            max_capacity: self.max_capacity,
            betweenness: NADVec { data: copy_vec(&self.betweenness.data) },
            min_betweenness: self.min_betweenness,
            max_betweenness: self.max_betweenness,
        };
        r
    }
}

/// `b` holds the same metrics as `a`, entry for entry.
pub open spec fn same_info(a: GraphInfo, b: GraphInfo) -> bool {
    &&& b.zs.entries() == a.zs.entries()
    &&& b.zmax == a.zmax
    &&& b.beta == a.beta
    &&& b.beta_delta == a.beta_delta
    &&& b.capacity.entries() == a.capacity.entries()
    &&& b.min_capacity == a.min_capacity
    &&& b.max_capacity == a.max_capacity
    &&& b.betweenness.entries() == a.betweenness.entries()
    &&& b.min_betweenness == a.min_betweenness
    &&& b.max_betweenness == a.max_betweenness
}

} // verus!
