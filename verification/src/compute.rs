//! The compute pipeline: an iteration history plus the fixed sequence of
//! steps that advances the cascading-failure simulation until it converges
//! or halts on a fragmented network.

use vstd::prelude::*;

use crate::graph::{
    desc_ok, lemma_same_graph, same_graph, same_info, Graph, GraphDesc, GraphInfo,
    TopologyError,
};
use crate::node::Node;
use crate::path_finder::{endpoint_marks, reaches, CONNECTION_COST};
use crate::ratio::Ratio;

verus! {

/// One recorded snapshot: a graph and the metrics measured on it.
#[verifier::ext_equal]
#[derive(Debug, PartialEq)]
pub struct Iteration {
    pub graph: Graph,
    pub info: GraphInfo,
}

impl Iteration {
    pub open spec fn wf(self) -> bool {
        self.graph.wf() && self.info.wf(self.graph.spec_n())
    }

    /// Number of alive nodes in this snapshot.
    pub open spec fn spec_alive(self) -> int {
        self.graph.tracker.spec_alive()
    }

    /// Builds iteration zero from a topology description: the graph plus
    /// zeroed metrics.
    pub fn new(desc: &GraphDesc) -> (r: Result<Iteration, TopologyError>)
        ensures
            r is Ok <==> (desc.spec_node_count() <= crate::mat::MAX_NODES && desc_ok(*desc)),
            r matches Ok(it) ==> ({
                &&& it.wf()
                &&& it.graph.spec_n() == desc.spec_node_count()
                &&& it.spec_alive() == desc.spec_node_count()
                &&& forall|i: int| 0 <= i < it.graph.spec_n()
                    ==> it.graph.tracker.spec_is_alive(i)
                &&& forall|i: int, j: int| it.graph.adjacency.in_range(i, j)
                    ==> it.graph.adjacency.spec_get(i, j)
                        == crate::graph::desc_edge(*desc, i, j)
                &&& forall|i: int| 0 <= i < it.graph.spec_n()
                    ==> #[trigger] it.info.betweenness.entries()[i] == 0
            }),
    {
        let graph = match Graph::from_desc(desc) {
            Ok(g) => g,
            Err(e) => {
                return Err(e);
            },
        };
        let info = GraphInfo::new(&graph.tracker);
        Ok(Iteration { graph, info })
    }

    /// A deep copy of graph and metrics.
    pub fn duplicate(&self) -> (r: Iteration)
        ensures
            same_graph(self.graph, r.graph),
            same_info(self.info, r.info),
    {
        Iteration { graph: self.graph.duplicate(), info: self.info.duplicate() }
    }
}

/// The tolerance scalar stays small enough that every capacity product
/// fits the fixed-width arithmetic.
pub open spec fn alpha_ok(a: Ratio) -> bool {
    &&& a.wf()
    &&& -0x8000_0000 <= a.num <= 0x8000_0000
    &&& a.den <= 0x8000_0000
}

/// The run-wide tolerance used when none is overridden.
pub fn default_alpha() -> (r: Ratio)
    ensures
        r.num == 3,
        r.den == 1,
        alpha_ok(r),
{
    Ratio::from_int(3)
}

/// The iteration history of one run: an append-only list of snapshots, a
/// display cursor, the tolerance `alpha`, and the two per-round scalar
/// logs. A `ks` entry of `None` records a round that removed no node,
/// where `1 / removed` would be undefined.
#[verifier::ext_equal]
#[derive(Debug, PartialEq)]
pub struct State {
    pub alpha: Ratio,
    pub ks: Vec<Option<Ratio>>,
    pub beta_deltas: Vec<Ratio>,
    pub iterations: Vec<Iteration>,
    pub current_iter: usize,
}

impl State {
    pub open spec fn wf(self) -> bool {
        &&& alpha_ok(self.alpha)
        &&& self.iterations@.len() >= 1
        &&& self.current_iter < self.iterations@.len()
        &&& forall|k: int| 0 <= k < self.iterations@.len()
            ==> (#[trigger] self.iterations@[k]).wf()
    }

    /// The iteration the cursor points at.
    pub open spec fn active(self) -> Iteration {
        self.iterations@[self.current_iter as int]
    }

    /// A fresh history: iteration zero built from the description, empty
    /// logs, cursor at the start.
    pub fn new(desc: &GraphDesc, alpha: Ratio) -> (r: Result<State, TopologyError>)
        requires
            alpha_ok(alpha),
        ensures
            r is Ok <==> (desc.spec_node_count() <= crate::mat::MAX_NODES && desc_ok(*desc)),
            r matches Ok(s) ==> ({
                &&& s.wf()
                &&& s.alpha == alpha
                &&& s.ks@.len() == 0
                &&& s.beta_deltas@.len() == 0
                &&& s.iterations@.len() == 1
                &&& s.current_iter == 0
                &&& s.active().graph.spec_n() == desc.spec_node_count()
                &&& s.active().spec_alive() == desc.spec_node_count()
                &&& forall|i: int| 0 <= i < s.active().graph.spec_n()
                    ==> s.active().graph.tracker.spec_is_alive(i)
                &&& forall|i: int, j: int| s.active().graph.adjacency.in_range(i, j)
                    ==> s.active().graph.adjacency.spec_get(i, j)
                        == crate::graph::desc_edge(*desc, i, j)
            }),
    {
        let it = match Iteration::new(desc) {
            Ok(it) => it,
            Err(e) => {
                return Err(e);
            },
        };
        let mut iterations: Vec<Iteration> = Vec::new();
        iterations.push(it);
        Ok(State {
            alpha,
            ks: Vec::new(),
            beta_deltas: Vec::new(),
            iterations,
            current_iter: 0,
        })
    }

    pub fn iter_count(&self) -> (r: usize)
        ensures
            r as int == self.iterations@.len(),
    {
        self.iterations.len()
    }

    /// Read one recorded iteration by index.
    pub fn at(&self, idx: usize) -> (r: &Iteration)
        requires
            idx < self.iterations@.len(),
        ensures
            *r == self.iterations@[idx as int],
    {
        &self.iterations[idx]
    }

    /// The iteration under the cursor.
    pub fn get(&self) -> (r: &Iteration)
        requires
            self.current_iter < self.iterations@.len(),
        ensures
            *r == self.active(),
    {
        &self.iterations[self.current_iter]
    }

    /// Moves the display cursor.
    pub fn set_current_iter(&mut self, idx: usize)
        requires
            idx < old(self).iterations@.len(),
        ensures
            final(self).current_iter == idx,
            final(self).iterations == old(self).iterations,
            final(self).alpha == old(self).alpha,
            final(self).ks == old(self).ks,
            final(self).beta_deltas == old(self).beta_deltas,
    {
        self.current_iter = idx;
    }

    pub fn current_iter(&self) -> (r: usize)
        ensures
            r == self.current_iter,
    {
        self.current_iter
    }

    /// Discards the trailing iteration and rewinds the cursor.
    pub fn pop(&mut self)
        requires
            old(self).iterations@.len() >= 1,
        ensures
            final(self).iterations@ == old(self).iterations@.drop_last(),
            final(self).current_iter == 0,
            final(self).alpha == old(self).alpha,
            final(self).ks == old(self).ks,
            final(self).beta_deltas == old(self).beta_deltas,
    {
        self.iterations.pop();
        self.current_iter = 0;
    }

    /// Appends one iteration to the history.
    pub fn add_iter(&mut self, iter: Iteration)
        ensures
            final(self).iterations@ == old(self).iterations@.push(iter),
            final(self).current_iter == old(self).current_iter,
            final(self).alpha == old(self).alpha,
            final(self).ks == old(self).ks,
            final(self).beta_deltas == old(self).beta_deltas,
    {
        self.iterations.push(iter);
    }

    /// Moves the display cursor `n` steps, wrapping around the recorded
    /// iterations in either direction: the new cursor is in range and
    /// differs from `current + n` by a multiple of the iteration count.
    pub fn next_by(&mut self, n: isize)
        requires
            old(self).wf(),
        ensures
            final(self).wf(),
            final(self).current_iter < final(self).iterations@.len(),
            final(self).iterations == old(self).iterations,
            final(self).alpha == old(self).alpha,
            final(self).ks == old(self).ks,
            final(self).beta_deltas == old(self).beta_deltas,
            exists|k: int|
                final(self).current_iter as int
                    == old(self).current_iter + n + #[trigger] (k
                        * old(self).iterations@.len() as int),
    {
        let len = self.iterations.len();
        let cur = self.current_iter;
        let ghost l = len as int;
        if n >= 0 {
            let off_wide: u128 = (n as u128) % (len as u128);
            let off = off_wide as usize;
            let big: u128 = cur as u128 + off as u128;
            let idx: u128 = if big >= len as u128 {
                big - len as u128
            } else {
                big
            };
            self.current_iter = idx as usize;
            proof {
                let q = (n as int) / l;
                vstd::arithmetic::div_mod::lemma_fundamental_div_mod(n as int, l);
                assert(off_wide as int == (n as int) % l);
                assert((n as int) % l == n - q * l);
                if big >= len as u128 {
                    assert(self.current_iter as int == cur + (n - q * l) - l);
                    assert((-q - 1) * l == -(q * l) - l) by (nonlinear_arith);
                    assert(self.current_iter as int == cur + n + (-q - 1) * l);
                } else {
                    assert(self.current_iter as int == cur + (n - q * l));
                    assert((-q) * l == -(q * l)) by (nonlinear_arith);
                    assert(self.current_iter as int == cur + n + (-q) * l);
                }
            }
        } else {
            let back_wide: u128 = ((-(n as i128)) as u128) % (len as u128);
            let back = back_wide as usize;
            let off = if back == 0 {
                0
            } else {
                len - back
            };
            let big: u128 = cur as u128 + off as u128;
            let idx: u128 = if big >= len as u128 {
                big - len as u128
            } else {
                big
            };
            self.current_iter = idx as usize;
            proof {
                let q = (-(n as int)) / l;
                vstd::arithmetic::div_mod::lemma_fundamental_div_mod(-(n as int), l);
                assert(back_wide as int == (-(n as int)) % l);
                assert((-(n as int)) % l == -(n as int) - q * l);
                if back == 0 {
                    if big >= len as u128 {
                        assert((q - 1) * l == q * l - l) by (nonlinear_arith);
                        assert(self.current_iter as int == cur + n + (q - 1) * l);
                    } else {
                        assert(self.current_iter as int == cur + n + q * l);
                    }
                } else {
                    if big >= len as u128 {
                        assert(self.current_iter as int == cur + n + q * l);
                    } else {
                        assert((q + 1) * l == q * l + l) by (nonlinear_arith);
                        assert(self.current_iter as int == cur + n + (q + 1) * l);
                    }
                }
            }
        }
    }

    /// Moves the cursor one iteration forward, wrapping.
    pub fn next(&mut self)
        requires
            old(self).wf(),
        ensures
            final(self).wf(),
            final(self).iterations == old(self).iterations,
            final(self).alpha == old(self).alpha,
            final(self).ks == old(self).ks,
            final(self).beta_deltas == old(self).beta_deltas,
            final(self).current_iter as int == if old(self).current_iter as int
                == old(self).iterations@.len() - 1 {
                0int
            } else {
                old(self).current_iter + 1
            },
    {
        let len = self.iterations.len();
        if self.current_iter + 1 >= len {
            self.current_iter = 0;
        } else {
            self.current_iter = self.current_iter + 1;
        }
    }

    /// Moves the cursor one iteration back, wrapping.
    pub fn prev(&mut self)
        requires
            old(self).wf(),
        ensures
            final(self).wf(),
            final(self).iterations == old(self).iterations,
            final(self).alpha == old(self).alpha,
            final(self).ks == old(self).ks,
            final(self).beta_deltas == old(self).beta_deltas,
            final(self).current_iter as int == if old(self).current_iter == 0 {
                old(self).iterations@.len() - 1
            } else {
                old(self).current_iter - 1
            },
    {
        let len = self.iterations.len();
        if self.current_iter == 0 {
            self.current_iter = len - 1;
        } else {
            self.current_iter = self.current_iter - 1;
        }
    }

    /// Takes the active iteration out for in-place work.
    fn take_active(&mut self) -> (it: Iteration)
        requires
            old(self).current_iter < old(self).iterations@.len(),
        ensures
            it == old(self).active(),
            final(self).iterations@
                == old(self).iterations@.remove(old(self).current_iter as int),
            final(self).current_iter == old(self).current_iter,
            final(self).alpha == old(self).alpha,
            final(self).ks == old(self).ks,
            final(self).beta_deltas == old(self).beta_deltas,
    {
        self.iterations.remove(self.current_iter)
    }

    /// Puts the active iteration back.
    fn put_active(&mut self, it: Iteration)
        requires
            old(self).current_iter as int <= old(self).iterations@.len(),
        ensures
            final(self).iterations@
                == old(self).iterations@.insert(old(self).current_iter as int, it),
            final(self).current_iter == old(self).current_iter,
            final(self).alpha == old(self).alpha,
            final(self).ks == old(self).ks,
            final(self).beta_deltas == old(self).beta_deltas,
    {
        self.iterations.insert(self.current_iter, it);
    }
}

/// All of `b` equals `a` except that the active iteration was replaced.
pub open spec fn same_but_active(a: State, b: State, it: Iteration) -> bool {
    &&& b.iterations@ == a.iterations@.update(a.current_iter as int, it)
    &&& b.current_iter == a.current_iter
    &&& b.alpha == a.alpha
    &&& b.ks == a.ks
    &&& b.beta_deltas == a.beta_deltas
}

/// Recomputes shortest paths on the active iteration's graph. Reports
/// failure — the round must stop — exactly when the alive subgraph is
/// fragmented.
pub struct UpdatePaths;

impl UpdatePaths {
    pub fn compute(&self, state: &mut State) -> (r: bool)
        requires
            old(state).wf(),
        ensures
            final(state).wf(),
            same_but_active(*old(state), *final(state), final(state).active()),
            final(state).active().info == old(state).active().info,
            final(state).active().graph.tracker == old(state).active().graph.tracker,
            final(state).active().graph.adjacency == old(state).active().graph.adjacency,
            r ==> forall|i: int, j: int|
                final(state).active().graph.tracker.spec_is_alive(i)
                    && final(state).active().graph.tracker.spec_is_alive(j) && i != j
                    ==> CONNECTION_COST
                        <= #[trigger] final(state).active().graph.path_finder.costs.spec_get(
                            i, j)
                        <= 2 * final(state).active().graph.spec_n(),
            r ==> forall|i: int, j: int|
                final(state).active().graph.tracker.spec_is_alive(i)
                    && final(state).active().graph.tracker.spec_is_alive(j) && i != j
                    ==> #[trigger] endpoint_marks(final(state).active().graph.path_finder, i,
                        j),
            r ==> forall|i: int, j: int|
                final(state).active().graph.tracker.spec_is_alive(i)
                    && final(state).active().graph.tracker.spec_is_alive(j) && i != j
                    ==> #[trigger] final(state).active().graph.path_finder.costs.spec_get(
                            i, j)
                        == final(state).active().graph.path_finder.costs.spec_get(j, i),
            // success means the costs are the exact alive-subgraph
            // distances, so in particular every alive pair is reachable
            r ==> forall|i: int| final(state).active().graph.tracker.spec_is_alive(i)
                ==> #[trigger] crate::path_finder::costs_are_distances(
                        final(state).active().graph.path_finder,
                        final(state).active().graph.adjacency,
                        final(state).active().graph.tracker, i),
            r ==> forall|i: int, j: int|
                final(state).active().graph.tracker.spec_is_alive(i)
                    && final(state).active().graph.tracker.spec_is_alive(j)
                    ==> #[trigger] reaches(final(state).active().graph.adjacency,
                            final(state).active().graph.tracker, i, j),
            // and the recorded memberships carry, for every alive pair, a
            // whole shortest path realizing the recorded cost
            r ==> forall|i: int, j: int|
                final(state).active().graph.tracker.spec_is_alive(i)
                    && final(state).active().graph.tracker.spec_is_alive(j) && i != j
                    ==> #[trigger] crate::path_finder::marked_path(
                            final(state).active().graph.path_finder,
                            final(state).active().graph.adjacency,
                            final(state).active().graph.tracker, i, j,
                            final(state).active().graph.path_finder.costs.spec_get(i, j)
                                as int),
            !r ==> exists|s: int, t: int|
                old(state).active().graph.tracker.spec_is_alive(s)
                    && old(state).active().graph.tracker.spec_is_alive(t)
                    && !reaches(old(state).active().graph.adjacency,
                        old(state).active().graph.tracker, s, t),
    {
        let ghost pre = *state;
        let mut it = state.take_active();
        let outcome = it.graph.update_paths();
        state.put_active(it);
        proof {
            assert(state.iterations@ =~= pre.iterations@.update(
                pre.current_iter as int,
                state.iterations@[pre.current_iter as int],
            ));
            assert forall|k: int| 0 <= k < state.iterations@.len()
                implies (#[trigger] state.iterations@[k]).wf() by {
                if k != pre.current_iter as int {
                    assert(state.iterations@[k] == pre.iterations@[k]);
                }
            }
        }
        outcome.is_some()
    }
}

/// Sum of the recorded costs from `i` to every alive `j < m`, `j != i`.
pub open spec fn row_cost_sum(g: Graph, i: int, m: int) -> int
    decreases m,
{
    if m <= 0 {
        0
    } else {
        row_cost_sum(g, i, m - 1) + if g.tracker.spec_is_alive(m - 1) && m - 1 != i {
            g.path_finder.costs.spec_get(i, m - 1) as int
        } else {
            0
        }
    }
}

/// Sum of `row_cost_sum` over every alive `i < m`: every ordered alive
/// pair's cost, so each undirected cost counted twice.
pub open spec fn total_cost_sum(g: Graph, m: int) -> int
    decreases m,
{
    if m <= 0 {
        0
    } else {
        total_cost_sum(g, m - 1) + if g.tracker.spec_is_alive(m - 1) {
            row_cost_sum(g, m - 1, g.spec_n())
        } else {
            0
        }
    }
}

pub proof fn lemma_row_cost_sum_bounds(g: Graph, i: int, m: int)
    requires
        g.wf(),
        0 <= m <= g.spec_n(),
        0 <= i < g.spec_n(),
    ensures
        0 <= row_cost_sum(g, i, m) <= 4096 * m,
    decreases m,
{
    if m > 0 {
        lemma_row_cost_sum_bounds(g, i, m - 1);
        if g.tracker.spec_is_alive(m - 1) && m - 1 != i {
            assert(0 <= g.path_finder.costs.spec_get(i, m - 1) <= 2 * g.spec_n());
        }
    }
}

pub proof fn lemma_total_cost_sum_bounds(g: Graph, m: int)
    requires
        g.wf(),
        0 <= m <= g.spec_n(),
    ensures
        0 <= total_cost_sum(g, m) <= 0x80_0000 * m,
    decreases m,
{
    if m > 0 {
        lemma_total_cost_sum_bounds(g, m - 1);
        lemma_row_cost_sum_bounds(g, m - 1, g.spec_n());
    }
}

/// The total pair-cost sum dominates any single alive node's row sum.
pub proof fn lemma_total_cost_sum_lb(g: Graph, i0: int, m: int)
    requires
        g.wf(),
        0 <= m <= g.spec_n(),
        g.tracker.spec_is_alive(i0),
        i0 < m,
    ensures
        total_cost_sum(g, m) >= row_cost_sum(g, i0, g.spec_n()),
    decreases m,
{
    if m > 0 {
        if i0 == m - 1 {
            lemma_total_cost_sum_bounds(g, m - 1);
        } else {
            lemma_total_cost_sum_lb(g, i0, m - 1);
            lemma_row_cost_sum_bounds(g, m - 1, g.spec_n());
        }
    }
}

/// When some other alive node exists and its recorded cost is positive,
/// a node's cost row sums to something positive.
proof fn lemma_row_cost_sum_pos(g: Graph, i: int, j0: int, m: int)
    requires
        g.wf(),
        0 <= m <= g.spec_n(),
        0 <= i < g.spec_n(),
        g.tracker.spec_is_alive(j0),
        j0 != i,
        j0 < m,
        g.path_finder.costs.spec_get(i, j0) >= 1,
    ensures
        row_cost_sum(g, i, m) >= 1,
    decreases m,
{
    if m > 0 {
        if j0 == m - 1 {
            lemma_row_cost_sum_bounds(g, i, m - 1);
        } else {
            lemma_row_cost_sum_pos(g, i, j0, m - 1);
            if g.tracker.spec_is_alive(m - 1) && m - 1 != i {
                assert(0 <= g.path_finder.costs.spec_get(i, m - 1));
            }
        }
    }
}

/// With at least two alive nodes, every alive node has alive company.
proof fn lemma_exists_other_alive(tracker: crate::node::NodeStatusTracker, i: int)
    requires
        tracker.wf(),
        tracker.spec_alive() >= 2,
        tracker.spec_is_alive(i),
    ensures
        exists|j: int| tracker.spec_is_alive(j) && j != i,
{
    let n = tracker.spec_node_count();
    let falses = Seq::new(n as nat, |k: int| false);
    crate::node::lemma_count_true_zero_all(falses, n);
    crate::node::lemma_count_true_update_false(tracker.status(), n, i);
    let t = tracker.status().update(i, false);
    crate::node::lemma_count_lt_exists(falses, t, n);
    let j = choose|k: int| 0 <= k < n && t[k] && !falses[k];
    assert(tracker.spec_is_alive(j) && j != i);
}

/// Sum of one node's recorded costs to every alive other node.
fn row_cost_sum_exec(g: &Graph, i: Node) -> (r: i64)
    requires
        g.wf(),
        0 <= i.spec_idx() < g.spec_n(),
    ensures
        r as int == row_cost_sum(*g, i.spec_idx(), g.spec_n()),
        0 <= r <= 0x80_0000,
{
    let n = g.node_count();
    let mut sum: i64 = 0;
    let mut j: usize = 0;
    while j < n
        invariant
            j <= n,
            n as int == g.spec_n(),
            g.wf(),
            0 <= i.spec_idx() < g.spec_n(),
            sum as int == row_cost_sum(*g, i.spec_idx(), j as int),
            0 <= sum <= 4096 * j as int,
        decreases n - j,
    {
        let nj = Node::new(j as u32);
        if g.tracker.is_alive(nj) && j != i.idx() {
            let c = g.path_finder.cost(i, nj);
            proof {
                assert(0 <= c <= 2 * g.spec_n());
                lemma_row_cost_sum_bounds(*g, i.spec_idx(), j as int);
            }
            sum = sum + c;
        }
        j += 1;
    }
    proof {
        lemma_row_cost_sum_bounds(*g, i.spec_idx(), n as int);
    }
    sum
}

/// The structural-resilience step: records each alive node's efficiency
/// value `z = S / (2 P)`, their maximum, and the resilience coefficient
/// `beta` with its deviation from the ideal value of one, appending the
/// deviation to the run-wide log. Declines to act — reporting failure
/// instead of dividing by zero — when two or fewer nodes are alive or
/// some alive node's recorded cost sum is zero.
pub struct Zmax;

impl Zmax {
    #[verifier::rlimit(60)]
    pub fn compute(&self, state: &mut State) -> (r: bool)
        requires
            old(state).wf(),
        ensures
            final(state).wf(),
            r <==> !(old(state).active().spec_alive() <= 2 || exists|i: int|
                old(state).active().graph.tracker.spec_is_alive(i)
                    && #[trigger] row_cost_sum(old(state).active().graph, i,
                        old(state).active().graph.spec_n()) == 0),
            !r ==> final(state).iterations@ == old(state).iterations@
                && final(state).current_iter == old(state).current_iter
                && final(state).alpha == old(state).alpha
                && final(state).ks == old(state).ks
                && final(state).beta_deltas == old(state).beta_deltas,
            r ==> ({
                let g = old(state).active().graph;
                let n = g.spec_n();
                let alive = old(state).active().spec_alive();
                let s_total = total_cost_sum(g, n);
                let info = final(state).active().info;
                &&& final(state).iterations@ == old(state).iterations@.update(
                    old(state).current_iter as int, final(state).active())
                &&& final(state).current_iter == old(state).current_iter
                &&& final(state).alpha == old(state).alpha
                &&& final(state).ks == old(state).ks
                &&& final(state).active().graph == g
                &&& info.capacity == old(state).active().info.capacity
                &&& info.betweenness == old(state).active().info.betweenness
                &&& info.min_capacity == old(state).active().info.min_capacity
                &&& info.max_capacity == old(state).active().info.max_capacity
                &&& info.min_betweenness == old(state).active().info.min_betweenness
                &&& info.max_betweenness == old(state).active().info.max_betweenness
                &&& forall|i: int| g.tracker.spec_is_alive(i)
                    ==> (#[trigger] info.zs.entries()[i]).num == s_total
                        && info.zs.entries()[i].den == 2 * row_cost_sum(g, i, n)
                &&& forall|i: int| 0 <= i < n && !g.tracker.spec_is_alive(i)
                    ==> #[trigger] info.zs.entries()[i] == (Ratio { num: 0, den: 1 })
                &&& info.zmax.num == s_total
                &&& exists|m: int| g.tracker.spec_is_alive(m)
                    && info.zmax.den == 2 * #[trigger] row_cost_sum(g, m, n)
                &&& forall|i: int| g.tracker.spec_is_alive(i)
                    ==> info.zmax.den <= 2 * #[trigger] row_cost_sum(g, i, n)
                &&& info.beta.num == (alive - 1) * (2 * info.zmax.num - alive * info.zmax.den)
                &&& info.beta.den == info.zmax.num * (alive - 2)
                &&& info.beta_delta.den == info.beta.den
                &&& info.beta_delta.num == if info.beta.num >= info.beta.den {
                    info.beta.num - info.beta.den
                } else {
                    info.beta.den - info.beta.num
                }
                &&& final(state).beta_deltas@
                    == old(state).beta_deltas@.push(info.beta_delta)
            }),
    {
        let ghost pre = *state;
        let mut it = state.take_active();
        let n = it.graph.node_count();
        let alive_cnt = it.graph.alive();
        let ghost g = it.graph;

        if alive_cnt <= 2 {
            state.put_active(it);
            proof {
                assert(state.iterations@ =~= pre.iterations@);
            }
            return false;
        }

        // per-node cost sums, the total, and whether any alive sum is zero
        let mut psums: Vec<i64> = Vec::new();
        let mut total: i64 = 0;
        let mut has_zero = false;
        let mut i: usize = 0;
        while i < n
            invariant
                i <= n,
                n as int == g.spec_n(),
                it.graph == g,
                g.wf(),
                psums@.len() == i as int,
                forall|k: int| 0 <= k < i as int && g.tracker.spec_is_alive(k)
                    ==> (#[trigger] psums@[k]) as int == row_cost_sum(g, k, g.spec_n()),
                total as int == total_cost_sum(g, i as int),
                0 <= total <= 0x80_0000 * i as int,
                has_zero <==> exists|k: int| 0 <= k < i as int
                    && g.tracker.spec_is_alive(k)
                    && #[trigger] row_cost_sum(g, k, g.spec_n()) == 0,
            decreases n - i,
        {
            let ni = Node::new(i as u32);
            if it.graph.tracker.is_alive(ni) {
                let row = row_cost_sum_exec(&it.graph, ni);
                proof {
                    lemma_total_cost_sum_bounds(g, i as int);
                }
                psums.push(row);
                total = total + row;
                if row == 0 {
                    has_zero = true;
                }
            } else {
                psums.push(0);
            }
            i += 1;
        }

        if has_zero {
            state.put_active(it);
            proof {
                assert(state.iterations@ =~= pre.iterations@);
            }
            return false;
        }

        proof {
            assert forall|k: int| g.tracker.spec_is_alive(k)
                implies #[trigger] row_cost_sum(g, k, g.spec_n()) >= 1 by {
                assert(psums@[k] as int == row_cost_sum(g, k, g.spec_n()));
                lemma_row_cost_sum_bounds(g, k, g.spec_n());
            }
        }

        // the efficiency values and their maximum: z is largest where the
        // per-node sum is smallest
        let mut pmin: i64 = 0;
        let mut found = false;
        let mut i2: usize = 0;
        while i2 < n
            invariant
                i2 <= n,
                n as int == g.spec_n(),
                it.graph == g,
                g.wf(),
                n <= crate::mat::MAX_NODES,
                psums@.len() == n as int,
                forall|k: int| 0 <= k < n as int && g.tracker.spec_is_alive(k)
                    ==> (#[trigger] psums@[k]) as int == row_cost_sum(g, k, g.spec_n()),
                forall|k: int| g.tracker.spec_is_alive(k)
                    ==> #[trigger] row_cost_sum(g, k, g.spec_n()) >= 1,
                !found ==> forall|k: int| 0 <= k < i2 as int
                    ==> !g.tracker.spec_is_alive(k),
                found ==> exists|m: int| 0 <= m < i2 as int && g.tracker.spec_is_alive(m)
                    && pmin as int == #[trigger] row_cost_sum(g, m, g.spec_n()),
                found ==> forall|k: int| 0 <= k < i2 as int && g.tracker.spec_is_alive(k)
                    ==> pmin as int <= #[trigger] row_cost_sum(g, k, g.spec_n()),
                found ==> 1 <= pmin <= 0x80_0000,
            decreases n - i2,
        {
            let ni = Node::new(i2 as u32);
            if it.graph.tracker.is_alive(ni) {
                let p = psums[i2];
                proof {
                    lemma_row_cost_sum_bounds(g, i2 as int, g.spec_n());
                }
                if !found || p < pmin {
                    pmin = p;
                    found = true;
                }
            }
            i2 += 1;
        }
        proof {
            // at least one alive node exists, so a minimum was found
            if !found {
                assert forall|k: int| 0 <= k < g.spec_n()
                    implies !g.tracker.status()[k] by {
                    assert(!g.tracker.spec_is_alive(k));
                }
                crate::node::lemma_count_true_zero_all(g.tracker.status(), g.spec_n());
                assert(false);
            }
            lemma_total_cost_sum_bounds(g, n as int);
        }

        it.info.zs.fill(Ratio::zero());
        let mut i3: usize = 0;
        while i3 < n
            invariant
                i3 <= n,
                n as int == g.spec_n(),
                it.graph == g,
                g.wf(),
                it.info.wf(g.spec_n()),
                psums@.len() == n as int,
                0 <= total <= 0x80_0000 * n as int,
                n <= crate::mat::MAX_NODES,
                forall|k: int| 0 <= k < n as int && g.tracker.spec_is_alive(k)
                    ==> (#[trigger] psums@[k]) as int == row_cost_sum(g, k, g.spec_n()),
                forall|k: int| g.tracker.spec_is_alive(k)
                    ==> #[trigger] row_cost_sum(g, k, g.spec_n()) >= 1,
                it.info.capacity == pre.active().info.capacity,
                it.info.betweenness == pre.active().info.betweenness,
                it.info.min_capacity == pre.active().info.min_capacity,
                it.info.max_capacity == pre.active().info.max_capacity,
                it.info.min_betweenness == pre.active().info.min_betweenness,
                it.info.max_betweenness == pre.active().info.max_betweenness,
                it.info.zmax == pre.active().info.zmax,
                it.info.beta == pre.active().info.beta,
                it.info.beta_delta == pre.active().info.beta_delta,
                total as int == total_cost_sum(g, g.spec_n()),
                forall|k: int| 0 <= k < i3 as int && g.tracker.spec_is_alive(k)
                    ==> (#[trigger] it.info.zs.entries()[k]).num == total as int
                        && it.info.zs.entries()[k].den == 2 * row_cost_sum(g, k, g.spec_n()),
                forall|k: int| i3 as int <= k < n as int || (0 <= k < i3 as int
                    && !g.tracker.spec_is_alive(k))
                    ==> #[trigger] it.info.zs.entries()[k] == (Ratio { num: 0, den: 1 }),
            decreases n - i3,
        {
            let ni = Node::new(i3 as u32);
            if it.graph.tracker.is_alive(ni) {
                let p = psums[i3];
                proof {
                    lemma_row_cost_sum_bounds(g, i3 as int, g.spec_n());
                }
                it.info.zs.set_at(ni, Ratio::new(total, 2 * p));
            }
            i3 += 1;
        }

        proof {
            // the total dominates every row, and at least three alive rows
            // of at least one each make it positive
            let m0 = choose|m: int| 0 <= m < n as int && g.tracker.spec_is_alive(m)
                && pmin as int == #[trigger] row_cost_sum(g, m, g.spec_n());
            lemma_total_cost_sum_lb(g, m0, g.spec_n());
            assert(total >= 1);
        }

        let zmax = Ratio::new(total, 2 * pmin);
        proof {
            crate::node::lemma_count_true_bounds(g.tracker.status(), g.spec_n());
            assert(3 <= alive_cnt as int <= 2048);
        }
        let na: i64 = alive_cnt as i64;
        proof {
            assert(0 <= na * (2 * pmin) <= 0x8_0000_0000) by (nonlinear_arith)
                requires
                    0 <= na <= 2048,
                    0 <= 2 * pmin <= 0x100_0000,
            ;
        }
        let inner: i64 = 2 * total - na * (2 * pmin);
        proof {
            assert(-0x1_0000_0000_0000_00 <= (na - 1) * inner <= 0x1_0000_0000_0000_00)
                by (nonlinear_arith)
                requires
                    0 <= na - 1 <= 2048,
                    -0x10_0000_0000 <= inner <= 0x10_0000_0000,
            ;
            assert(1 <= total * (na - 2) <= 0x800_0000_0000_0000) by (nonlinear_arith)
                requires
                    1 <= total <= 0x4_0000_0000,
                    1 <= na - 2 <= 2048,
            ;
        }
        let beta_num: i64 = (na - 1) * inner;
        let beta_den: i64 = total * (na - 2);
        let beta = Ratio::new(beta_num, beta_den);
        let beta_delta = beta.abs_delta_from_one();
        it.info.zmax = zmax;
        it.info.beta = beta;
        it.info.beta_delta = beta_delta;

        state.put_active(it);
        state.beta_deltas.push(beta_delta);
        proof {
            assert(state.iterations@ =~= pre.iterations@.update(
                pre.current_iter as int,
                state.iterations@[pre.current_iter as int],
            ));
            assert forall|k: int| 0 <= k < state.iterations@.len()
                implies (#[trigger] state.iterations@[k]).wf() by {
                if k != pre.current_iter as int {
                    assert(state.iterations@[k] == pre.iterations@[k]);
                }
            }
        }
        true
    }
}

/// Number of alive targets `t` with `s < t < m` whose recorded shortest
/// path for `(s, t)` passes through `x`.
pub open spec fn row_pairs(g: Graph, x: int, s: int, m: int) -> int
    decreases m,
{
    if m <= s + 1 || m <= 0 {
        0
    } else {
        row_pairs(g, x, s, m - 1) + if g.tracker.spec_is_alive(m - 1)
            && g.path_finder.spec_contains(s, m - 1, x) {
            1int
        } else {
            0int
        }
    }
}

/// Betweenness of `x`: over all alive unordered pairs `(s, t)` with
/// `s < t < m`, how many recorded shortest paths pass through `x`.
pub open spec fn pairs_through(g: Graph, x: int, m: int) -> int
    decreases m,
{
    if m <= 0 {
        0
    } else {
        pairs_through(g, x, m - 1) + if g.tracker.spec_is_alive(m - 1) {
            row_pairs(g, x, m - 1, g.spec_n())
        } else {
            0
        }
    }
}

pub proof fn lemma_row_pairs_bounds(g: Graph, x: int, s: int, m: int)
    requires
        m <= 2048,
    ensures
        0 <= row_pairs(g, x, s, m) <= if m >= 0 { m } else { 0 },
    decreases m,
{
    if m > s + 1 && m > 0 {
        lemma_row_pairs_bounds(g, x, s, m - 1);
    }
}

pub proof fn lemma_pairs_through_bounds(g: Graph, x: int, m: int)
    requires
        g.wf(),
        0 <= m <= g.spec_n(),
    ensures
        0 <= pairs_through(g, x, m) <= 2048 * m,
    decreases m,
{
    if m > 0 {
        lemma_pairs_through_bounds(g, x, m - 1);
        lemma_row_pairs_bounds(g, x, m - 1, g.spec_n());
    }
}

/// Counts, over all alive unordered pairs, the recorded shortest paths
/// passing through `x`.
fn count_pairs_through(g: &Graph, x: Node) -> (r: u64)
    requires
        g.wf(),
        0 <= x.spec_idx() < g.spec_n(),
    ensures
        r as int == pairs_through(*g, x.spec_idx(), g.spec_n()),
        r <= 0x40_0000,
{
    let n = g.node_count();
    let mut cnt: u64 = 0;
    let mut s: usize = 0;
    while s < n
        invariant
            s <= n,
            n as int == g.spec_n(),
            g.wf(),
            0 <= x.spec_idx() < g.spec_n(),
            cnt as int == pairs_through(*g, x.spec_idx(), s as int),
            0 <= cnt <= 2048 * s as int,
        decreases n - s,
    {
        let ns = Node::new(s as u32);
        if g.tracker.is_alive(ns) {
            let mut t: usize = s + 1;
            while t < n
                invariant
                    s < t <= n || t == s + 1,
                    s < n,
                    t >= s + 1,
                    t <= n,
                    n as int == g.spec_n(),
                    g.wf(),
                    0 <= x.spec_idx() < g.spec_n(),
                    ns.spec_idx() == s as int,
                    cnt as int == pairs_through(*g, x.spec_idx(), s as int)
                        + row_pairs(*g, x.spec_idx(), s as int, t as int),
                    0 <= cnt <= 2048 * s as int + t as int,
                decreases n - t,
            {
                let nt = Node::new(t as u32);
                if g.tracker.is_alive(nt) {
                    if g.path_finder.contains((ns, nt), x) {
                        cnt = cnt + 1;
                    }
                }
                t += 1;
            }
        } else {
            proof {
                assert(row_pairs(*g, x.spec_idx(), s as int, g.spec_n()) >= 0) by {
                    lemma_row_pairs_bounds(*g, x.spec_idx(), s as int, g.spec_n());
                }
            }
        }
        proof {
            lemma_pairs_through_bounds(*g, x.spec_idx(), s as int + 1);
        }
        s += 1;
    }
    proof {
        lemma_pairs_through_bounds(*g, x.spec_idx(), n as int);
    }
    cnt
}

/// The betweenness step: for every alive node, how many alive-pair
/// shortest paths pass through it, plus the first alive node attaining
/// the maximum and the minimum count. Fails only on an empty alive set.
pub struct Betweeness;

impl Betweeness {
    #[verifier::rlimit(60)]
    pub fn compute(&self, state: &mut State) -> (r: bool)
        requires
            old(state).wf(),
        ensures
            final(state).wf(),
            r <==> old(state).active().spec_alive() >= 1,
            !r ==> final(state).iterations@ == old(state).iterations@
                && final(state).current_iter == old(state).current_iter
                && final(state).alpha == old(state).alpha
                && final(state).ks == old(state).ks
                && final(state).beta_deltas == old(state).beta_deltas,
            r ==> ({
                let g = old(state).active().graph;
                let n = g.spec_n();
                let info = final(state).active().info;
                let old_info = old(state).active().info;
                let mx = info.max_betweenness.spec_idx();
                let mn = info.min_betweenness.spec_idx();
                &&& final(state).iterations@ == old(state).iterations@.update(
                    old(state).current_iter as int, final(state).active())
                &&& final(state).current_iter == old(state).current_iter
                &&& final(state).alpha == old(state).alpha
                &&& final(state).ks == old(state).ks
                &&& final(state).beta_deltas == old(state).beta_deltas
                &&& final(state).active().graph == g
                &&& info.zs == old_info.zs
                &&& info.zmax == old_info.zmax
                &&& info.beta == old_info.beta
                &&& info.beta_delta == old_info.beta_delta
                &&& info.capacity == old_info.capacity
                &&& info.min_capacity == old_info.min_capacity
                &&& info.max_capacity == old_info.max_capacity
                &&& forall|i: int| g.tracker.spec_is_alive(i)
                    ==> #[trigger] info.betweenness.entries()[i] as int
                        == pairs_through(g, i, n)
                &&& forall|i: int| 0 <= i < n && !g.tracker.spec_is_alive(i)
                    ==> #[trigger] info.betweenness.entries()[i] == 0
                &&& g.tracker.spec_is_alive(mx)
                &&& forall|i: int| g.tracker.spec_is_alive(i)
                    ==> #[trigger] info.betweenness.entries()[i]
                        <= info.betweenness.entries()[mx]
                &&& forall|i: int| g.tracker.spec_is_alive(i) && i < mx
                    ==> #[trigger] info.betweenness.entries()[i]
                        < info.betweenness.entries()[mx]
                &&& g.tracker.spec_is_alive(mn)
                &&& forall|i: int| g.tracker.spec_is_alive(i)
                    ==> info.betweenness.entries()[mn]
                        <= #[trigger] info.betweenness.entries()[i]
                &&& forall|i: int| g.tracker.spec_is_alive(i) && i < mn
                    ==> info.betweenness.entries()[mn]
                        < #[trigger] info.betweenness.entries()[i]
            }),
    {
        let ghost pre = *state;
        let mut it = state.take_active();
        let n = it.graph.node_count();
        let alive_cnt = it.graph.alive();
        let ghost g = it.graph;

        if alive_cnt == 0 {
            state.put_active(it);
            proof {
                assert(state.iterations@ =~= pre.iterations@);
            }
            return false;
        }

        it.info.betweenness.fill(0);
        let mut max_node: Node = Node::invalid();
        let mut max_val: u64 = 0;
        let mut max_found = false;
        let mut min_node: Node = Node::invalid();
        let mut min_val: u64 = 0;
        let mut min_found = false;

        let mut i: usize = 0;
        while i < n
            invariant
                i <= n,
                n as int == g.spec_n(),
                it.graph == g,
                g.wf(),
                n <= crate::mat::MAX_NODES,
                it.info.wf(g.spec_n()),
                it.info.zs == pre.active().info.zs,
                it.info.zmax == pre.active().info.zmax,
                it.info.beta == pre.active().info.beta,
                it.info.beta_delta == pre.active().info.beta_delta,
                it.info.capacity == pre.active().info.capacity,
                it.info.min_capacity == pre.active().info.min_capacity,
                it.info.max_capacity == pre.active().info.max_capacity,
                forall|k: int| 0 <= k < i as int && g.tracker.spec_is_alive(k)
                    ==> (#[trigger] it.info.betweenness.entries()[k]) as int
                        == pairs_through(g, k, g.spec_n()),
                forall|k: int| (i as int <= k < n as int) || (0 <= k < n as int
                    && !g.tracker.spec_is_alive(k))
                    ==> #[trigger] it.info.betweenness.entries()[k] == 0,
                max_found <==> exists|k: int| 0 <= k < i as int && g.tracker.spec_is_alive(k),
                min_found == max_found,
                max_found ==> ({
                    let mx = max_node.spec_idx();
                    &&& g.tracker.spec_is_alive(mx)
                    &&& mx < i as int
                    &&& max_val == it.info.betweenness.entries()[mx]
                    &&& forall|k: int| 0 <= k < i as int && g.tracker.spec_is_alive(k)
                        ==> #[trigger] it.info.betweenness.entries()[k] <= max_val
                    &&& forall|k: int| g.tracker.spec_is_alive(k) && k < mx
                        ==> #[trigger] it.info.betweenness.entries()[k] < max_val
                }),
                min_found ==> ({
                    let mn = min_node.spec_idx();
                    &&& g.tracker.spec_is_alive(mn)
                    &&& mn < i as int
                    &&& min_val == it.info.betweenness.entries()[mn]
                    &&& forall|k: int| 0 <= k < i as int && g.tracker.spec_is_alive(k)
                        ==> min_val <= #[trigger] it.info.betweenness.entries()[k]
                    &&& forall|k: int| g.tracker.spec_is_alive(k) && k < mn
                        ==> min_val < #[trigger] it.info.betweenness.entries()[k]
                }),
            decreases n - i,
        {
            let ni = Node::new(i as u32);
            if it.graph.tracker.is_alive(ni) {
                let cnt = count_pairs_through(&it.graph, ni);
                it.info.betweenness.set_at(ni, cnt);
                if !max_found || cnt > max_val {
                    max_val = cnt;
                    max_node = ni;
                    max_found = true;
                }
                if !min_found || cnt < min_val {
                    min_val = cnt;
                    min_node = ni;
                    min_found = true;
                }
                proof {
                    assert(ni.spec_idx() == (i as int));
                    assert((i as int) < g.spec_n());
                    assert(g.spec_n() < u32::MAX);
                }
            }
            i += 1;
        }

        proof {
            if !max_found {
                assert forall|k: int| 0 <= k < g.spec_n()
                    implies !g.tracker.status()[k] by {
                    assert(!g.tracker.spec_is_alive(k));
                }
                crate::node::lemma_count_true_zero_all(g.tracker.status(), g.spec_n());
                assert(false);
            }
        }
        it.info.max_betweenness = max_node;
        it.info.min_betweenness = min_node;

        state.put_active(it);
        proof {
            assert(state.iterations@ =~= pre.iterations@.update(
                pre.current_iter as int,
                state.iterations@[pre.current_iter as int],
            ));
            assert forall|k: int| 0 <= k < state.iterations@.len()
                implies (#[trigger] state.iterations@[k]).wf() by {
                if k != pre.current_iter as int {
                    assert(state.iterations@[k] == pre.iterations@[k]);
                }
            }
        }
        true
    }
}

/// The capacity step: sets every alive node's load threshold to
/// `(1 + alpha)` times its betweenness, exactly, and records the first
/// alive node attaining the largest and the smallest threshold. Fails
/// only on an empty alive set.
pub struct Capacity;

impl Capacity {
    #[verifier::rlimit(60)]
    pub fn compute(&self, state: &mut State) -> (r: bool)
        requires
            old(state).wf(),
        ensures
            final(state).wf(),
            r <==> old(state).active().spec_alive() >= 1,
            !r ==> final(state).iterations@ == old(state).iterations@
                && final(state).current_iter == old(state).current_iter
                && final(state).alpha == old(state).alpha
                && final(state).ks == old(state).ks
                && final(state).beta_deltas == old(state).beta_deltas,
            r ==> ({
                let g = old(state).active().graph;
                let n = g.spec_n();
                let alpha = old(state).alpha;
                let info = final(state).active().info;
                let old_info = old(state).active().info;
                let mx = info.max_capacity.spec_idx();
                let mn = info.min_capacity.spec_idx();
                &&& final(state).iterations@ == old(state).iterations@.update(
                    old(state).current_iter as int, final(state).active())
                &&& final(state).current_iter == old(state).current_iter
                &&& final(state).alpha == old(state).alpha
                &&& final(state).ks == old(state).ks
                &&& final(state).beta_deltas == old(state).beta_deltas
                &&& final(state).active().graph == g
                &&& info.zs == old_info.zs
                &&& info.zmax == old_info.zmax
                &&& info.beta == old_info.beta
                &&& info.beta_delta == old_info.beta_delta
                &&& info.betweenness == old_info.betweenness
                &&& info.min_betweenness == old_info.min_betweenness
                &&& info.max_betweenness == old_info.max_betweenness
                &&& forall|i: int| g.tracker.spec_is_alive(i)
                    ==> (#[trigger] info.capacity.entries()[i]).num
                        == (alpha.den + alpha.num) * old_info.betweenness.entries()[i]
                        && info.capacity.entries()[i].den == alpha.den
                &&& forall|i: int| 0 <= i < n && !g.tracker.spec_is_alive(i)
                    ==> #[trigger] info.capacity.entries()[i]
                        == old_info.capacity.entries()[i]
                &&& g.tracker.spec_is_alive(mx)
                &&& forall|i: int| g.tracker.spec_is_alive(i)
                    ==> Ratio::spec_le(#[trigger] info.capacity.entries()[i],
                        info.capacity.entries()[mx])
                &&& forall|i: int| g.tracker.spec_is_alive(i) && i < mx
                    ==> Ratio::spec_lt(#[trigger] info.capacity.entries()[i],
                        info.capacity.entries()[mx])
                &&& g.tracker.spec_is_alive(mn)
                &&& forall|i: int| g.tracker.spec_is_alive(i)
                    ==> Ratio::spec_le(info.capacity.entries()[mn],
                        #[trigger] info.capacity.entries()[i])
                &&& forall|i: int| g.tracker.spec_is_alive(i) && i < mn
                    ==> Ratio::spec_lt(info.capacity.entries()[mn],
                        #[trigger] info.capacity.entries()[i])
            }),
    {
        let ghost pre = *state;
        let alpha = state.alpha;
        let mut it = state.take_active();
        let n = it.graph.node_count();
        let alive_cnt = it.graph.alive();
        let ghost g = it.graph;

        if alive_cnt == 0 {
            state.put_active(it);
            proof {
                assert(state.iterations@ =~= pre.iterations@);
            }
            return false;
        }

        let mut max_node: Node = Node::invalid();
        let mut max_val: Ratio = Ratio::zero();
        let mut max_found = false;
        let mut min_node: Node = Node::invalid();
        let mut min_val: Ratio = Ratio::zero();
        let mut min_found = false;

        let mut i: usize = 0;
        while i < n
            invariant
                i <= n,
                n as int == g.spec_n(),
                it.graph == g,
                g.wf(),
                n <= crate::mat::MAX_NODES,
                alpha == pre.alpha,
                alpha_ok(alpha),
                it.info.wf(g.spec_n()),
                it.info.zs == pre.active().info.zs,
                it.info.zmax == pre.active().info.zmax,
                it.info.beta == pre.active().info.beta,
                it.info.beta_delta == pre.active().info.beta_delta,
                it.info.betweenness == pre.active().info.betweenness,
                it.info.min_betweenness == pre.active().info.min_betweenness,
                it.info.max_betweenness == pre.active().info.max_betweenness,
                it.info.min_capacity == pre.active().info.min_capacity,
                it.info.max_capacity == pre.active().info.max_capacity,
                forall|k: int| 0 <= k < i as int && g.tracker.spec_is_alive(k)
                    ==> (#[trigger] it.info.capacity.entries()[k]).num
                        == (alpha.den + alpha.num)
                            * pre.active().info.betweenness.entries()[k]
                        && it.info.capacity.entries()[k].den == alpha.den,
                forall|k: int| (i as int <= k < n as int) || (0 <= k < n as int
                    && !g.tracker.spec_is_alive(k))
                    ==> #[trigger] it.info.capacity.entries()[k]
                        == pre.active().info.capacity.entries()[k],
                max_found <==> exists|k: int| 0 <= k < i as int && g.tracker.spec_is_alive(k),
                min_found == max_found,
                max_found ==> ({
                    let mx = max_node.spec_idx();
                    &&& g.tracker.spec_is_alive(mx)
                    &&& mx < i as int
                    &&& max_val == it.info.capacity.entries()[mx]
                    &&& max_val.wf()
                    &&& forall|k: int| 0 <= k < i as int && g.tracker.spec_is_alive(k)
                        ==> Ratio::spec_le(#[trigger] it.info.capacity.entries()[k], max_val)
                    &&& forall|k: int| g.tracker.spec_is_alive(k) && k < mx
                        ==> Ratio::spec_lt(#[trigger] it.info.capacity.entries()[k], max_val)
                }),
                min_found ==> ({
                    let mn = min_node.spec_idx();
                    &&& g.tracker.spec_is_alive(mn)
                    &&& mn < i as int
                    &&& min_val == it.info.capacity.entries()[mn]
                    &&& min_val.wf()
                    &&& forall|k: int| 0 <= k < i as int && g.tracker.spec_is_alive(k)
                        ==> Ratio::spec_le(min_val, #[trigger] it.info.capacity.entries()[k])
                    &&& forall|k: int| g.tracker.spec_is_alive(k) && k < mn
                        ==> Ratio::spec_lt(min_val, #[trigger] it.info.capacity.entries()[k])
                }),
            decreases n - i,
        {
            let ni = Node::new(i as u32);
            if it.graph.tracker.is_alive(ni) {
                let cnt = it.info.betweenness.at(ni);
                let cap = alpha.one_plus_times(cnt);
                it.info.capacity.set_at(ni, cap);
                if !max_found || max_val.lt(&cap) {
                    max_val = cap;
                    max_node = ni;
                    max_found = true;
                }
                if !min_found || cap.lt(&min_val) {
                    min_val = cap;
                    min_node = ni;
                    min_found = true;
                }
                proof {
                    assert(ni.spec_idx() == (i as int));
                    assert((i as int) < g.spec_n());
                    assert(g.spec_n() < u32::MAX);
                }
            }
            i += 1;
        }

        proof {
            if !max_found {
                assert forall|k: int| 0 <= k < g.spec_n()
                    implies !g.tracker.status()[k] by {
                    assert(!g.tracker.spec_is_alive(k));
                }
                crate::node::lemma_count_true_zero_all(g.tracker.status(), g.spec_n());
                assert(false);
            }
        }
        it.info.max_capacity = max_node;
        it.info.min_capacity = min_node;

        state.put_active(it);
        proof {
            assert(state.iterations@ =~= pre.iterations@.update(
                pre.current_iter as int,
                state.iterations@[pre.current_iter as int],
            ));
            assert forall|k: int| 0 <= k < state.iterations@.len()
                implies (#[trigger] state.iterations@[k]).wf() by {
                if k != pre.current_iter as int {
                    assert(state.iterations@[k] == pre.iterations@[k]);
                }
            }
        }
        true
    }
}

/// Deep-clones the active iteration, appends the clone to the history and
/// advances the cursor onto it: the original becomes the retained "before"
/// snapshot, the clone the target of the round's removals.
pub struct CopyIteration;

impl CopyIteration {
    pub fn compute(&self, state: &mut State) -> (r: bool)
        requires
            old(state).wf(),
        ensures
            final(state).wf(),
            r == true,
            final(state).iterations@.len() == old(state).iterations@.len() + 1,
            forall|k: int| 0 <= k < old(state).iterations@.len()
                ==> final(state).iterations@[k] == old(state).iterations@[k],
            same_graph(old(state).active().graph,
                final(state).iterations@.last().graph),
            same_info(old(state).active().info, final(state).iterations@.last().info),
            final(state).current_iter == old(state).current_iter + 1,
            final(state).alpha == old(state).alpha,
            final(state).ks == old(state).ks,
            final(state).beta_deltas == old(state).beta_deltas,
            old(state).current_iter as int + 1 == old(state).iterations@.len()
                ==> final(state).active() == final(state).iterations@.last(),
    {
        let copy = state.get().duplicate();
        proof {
            lemma_same_graph(state.active().graph, copy.graph);
            assert(copy.info.wf(copy.graph.spec_n()));
        }
        state.add_iter(copy);
        let total = state.iter_count();
        proof {
            assert(state.current_iter < total);
        }
        state.set_current_iter_forward();
        true
    }
}

impl State {
    /// Moves the cursor one step forward; used right after an append.
    fn set_current_iter_forward(&mut self)
        requires
            old(self).current_iter < usize::MAX,
            old(self).current_iter as int + 1 <= old(self).iterations@.len(),
        ensures
            final(self).current_iter == old(self).current_iter + 1,
            final(self).iterations == old(self).iterations,
            final(self).alpha == old(self).alpha,
            final(self).ks == old(self).ks,
            final(self).beta_deltas == old(self).beta_deltas,
    {
        self.current_iter = self.current_iter + 1;
    }
}

/// Removes, from the active iteration's graph, the node recorded as
/// holding the maximum betweenness. Reports failure — leaving the state
/// untouched — if that record does not name an alive node; deleting a
/// dead node would be a caller bug.
pub struct DeleteMaxBetweenness;

impl DeleteMaxBetweenness {
    pub fn compute(&self, state: &mut State) -> (r: bool)
        requires
            old(state).wf(),
        ensures
            final(state).wf(),
            r <==> ({
                let it = old(state).active();
                0 <= it.info.max_betweenness.spec_idx() < it.graph.spec_n()
                    && it.graph.tracker.spec_is_alive(it.info.max_betweenness.spec_idx())
            }),
            !r ==> final(state).iterations@ == old(state).iterations@
                && final(state).current_iter == old(state).current_iter
                && final(state).alpha == old(state).alpha
                && final(state).ks == old(state).ks
                && final(state).beta_deltas == old(state).beta_deltas,
            r ==> ({
                let pre_it = old(state).active();
                let node = pre_it.info.max_betweenness.spec_idx();
                let it = final(state).active();
                &&& final(state).iterations@ == old(state).iterations@.update(
                    old(state).current_iter as int, it)
                &&& final(state).current_iter == old(state).current_iter
                &&& final(state).alpha == old(state).alpha
                &&& final(state).ks == old(state).ks
                &&& final(state).beta_deltas == old(state).beta_deltas
                &&& it.info == pre_it.info
                &&& it.spec_alive() == pre_it.spec_alive() - 1
                &&& it.graph.tracker.status()
                    == pre_it.graph.tracker.status().update(node, false)
                &&& !it.graph.tracker.spec_is_alive(node)
                &&& forall|i: int| 0 <= i < it.graph.spec_n() && i != node
                    ==> it.graph.tracker.spec_is_alive(i)
                        == pre_it.graph.tracker.spec_is_alive(i)
                &&& it.graph.path_finder == pre_it.graph.path_finder
                &&& forall|j: int| it.graph.adjacency.in_range(node, j)
                    ==> !it.graph.adjacency.spec_get(node, j)
                &&& forall|j: int| it.graph.adjacency.in_range(j, node)
                    ==> !it.graph.adjacency.spec_get(j, node)
                &&& forall|a: int, b: int| it.graph.adjacency.in_range(a, b)
                    && a != node && b != node
                    ==> it.graph.adjacency.spec_get(a, b)
                        == pre_it.graph.adjacency.spec_get(a, b)
            }),
    {
        let ghost pre = *state;
        let node = state.get().info.max_betweenness;
        let n = state.get().graph.node_count();
        let can_delete = node.idx() < n && state.get().graph.tracker.is_alive(node);
        if !can_delete {
            return false;
        }
        let mut it = state.take_active();
        it.graph.delete(node);
        state.put_active(it);
        proof {
            assert(state.iterations@ =~= pre.iterations@.update(
                pre.current_iter as int,
                state.iterations@[pre.current_iter as int],
            ));
            assert forall|k: int| 0 <= k < state.iterations@.len()
                implies (#[trigger] state.iterations@[k]).wf() by {
                if k != pre.current_iter as int {
                    assert(state.iterations@[k] == pre.iterations@[k]);
                }
            }
        }
        true
    }
}

/// Node `i` of the snapshot carries more load than its recorded capacity
/// threshold allows.
pub open spec fn overloaded(it: Iteration, i: int) -> bool {
    &&& it.graph.tracker.spec_is_alive(i)
    &&& it.info.betweenness.entries()[i] * it.info.capacity.entries()[i].den
        > it.info.capacity.entries()[i].num
}

/// How many nodes below `m` are overloaded.
pub open spec fn count_overloaded(it: Iteration, m: int) -> int
    decreases m,
{
    if m <= 0 {
        0
    } else {
        count_overloaded(it, m - 1) + if overloaded(it, m - 1) {
            1int
        } else {
            0int
        }
    }
}

pub proof fn lemma_count_overloaded_bounds(it: Iteration, m: int)
    requires
        m >= 0,
    ensures
        0 <= count_overloaded(it, m) <= m,
    decreases m,
{
    if m > 0 {
        lemma_count_overloaded_bounds(it, m - 1);
    }
}

/// Removes, in one batch, every alive node whose freshly measured
/// betweenness exceeds its stored capacity threshold, then logs the
/// round's overload severity: `1 / removed`, or nothing measurable when
/// no node was removed.
pub struct DeleteOverloaded;

impl DeleteOverloaded {
    #[verifier::rlimit(60)]
    pub fn compute(&self, state: &mut State) -> (r: bool)
        requires
            old(state).wf(),
        ensures
            final(state).wf(),
            r == true,
            ({
                let pre_it = old(state).active();
                let n = pre_it.graph.spec_n();
                let removed = count_overloaded(pre_it, n);
                let it = final(state).active();
                &&& final(state).iterations@ == old(state).iterations@.update(
                    old(state).current_iter as int, it)
                &&& final(state).current_iter == old(state).current_iter
                &&& final(state).alpha == old(state).alpha
                &&& final(state).beta_deltas == old(state).beta_deltas
                &&& it.info == pre_it.info
                &&& it.graph.path_finder == pre_it.graph.path_finder
                &&& it.graph.spec_n() == n
                &&& forall|i: int| 0 <= i < n
                    ==> (it.graph.tracker.spec_is_alive(i)
                        <==> (pre_it.graph.tracker.spec_is_alive(i)
                            && !overloaded(pre_it, i)))
                &&& it.spec_alive() == pre_it.spec_alive() - removed
                &&& forall|a: int, b: int| it.graph.adjacency.in_range(a, b)
                    && it.graph.tracker.spec_is_alive(a)
                    && it.graph.tracker.spec_is_alive(b)
                    ==> it.graph.adjacency.spec_get(a, b)
                        == pre_it.graph.adjacency.spec_get(a, b)
                &&& removed == 0
                    ==> final(state).ks@ == old(state).ks@.push(Option::None)
                &&& removed > 0
                    ==> final(state).ks@ == old(state).ks@.push(
                        Option::Some(Ratio { num: 1, den: removed as i64 }))
            }),
    {
        let ghost pre = *state;
        let mut it = state.take_active();
        let ghost it0 = it;
        let n = it.graph.node_count();

        let mut retired: Vec<Node> = Vec::new();
        let mut i: usize = 0;
        while i < n
            invariant
                i <= n,
                n as int == it0.graph.spec_n(),
                it == it0,
                it0.wf(),
                n <= crate::mat::MAX_NODES,
                retired@.len() as int == count_overloaded(it0, i as int),
                forall|a: int| 0 <= a < retired@.len()
                    ==> 0 <= (#[trigger] retired@[a]).spec_idx() < i as int
                        && overloaded(it0, retired@[a].spec_idx()),
                forall|a: int, b: int| 0 <= a < b < retired@.len()
                    ==> retired@[a].spec_idx() < retired@[b].spec_idx(),
                forall|k: int| 0 <= k < i as int && overloaded(it0, k)
                    ==> exists|a: int|
                        0 <= a < retired@.len() && (#[trigger] retired@[a]).spec_idx() == k,
            decreases n - i,
        {
            let ni = Node::new(i as u32);
            proof {
                lemma_count_overloaded_bounds(it0, i as int);
            }
            if it.graph.tracker.is_alive(ni) {
                let btw = it.info.betweenness.at(ni);
                let cap = it.info.capacity.at(ni);
                if cap.count_exceeds(btw) {
                    let ghost prev = retired@;
                    retired.push(ni);
                    proof {
                        assert forall|k: int| 0 <= k < i as int + 1 && overloaded(it0, k)
                            implies exists|a: int|
                                0 <= a < retired@.len()
                                    && (#[trigger] retired@[a]).spec_idx() == k by {
                            if k < i as int {
                                let a = choose|a: int|
                                    0 <= a < prev.len()
                                        && (#[trigger] prev[a]).spec_idx() == k;
                                assert(retired@[a].spec_idx() == k);
                            } else {
                                assert(retired@[retired@.len() - 1].spec_idx() == k);
                            }
                        }
                    }
                }
            }
            i += 1;
        }

        proof {
            lemma_count_overloaded_bounds(it0, n as int);
        }
        let removed = retired.len();
        let mut a: usize = 0;
        while a < removed
            invariant
                a <= removed,
                removed as int == retired@.len(),
                retired@.len() as int == count_overloaded(it0, it0.graph.spec_n()),
                it0.wf(),
                n as int == it0.graph.spec_n(),
                n <= crate::mat::MAX_NODES,
                forall|b: int| 0 <= b < retired@.len()
                    ==> 0 <= (#[trigger] retired@[b]).spec_idx() < n as int
                        && overloaded(it0, retired@[b].spec_idx()),
                forall|b: int, c: int| 0 <= b < c < retired@.len()
                    ==> retired@[b].spec_idx() < retired@[c].spec_idx(),
                forall|k: int| 0 <= k < n as int && overloaded(it0, k)
                    ==> exists|b: int|
                        0 <= b < retired@.len() && (#[trigger] retired@[b]).spec_idx() == k,
                it.wf(),
                it.info == it0.info,
                it.graph.path_finder == it0.graph.path_finder,
                it.graph.spec_n() == it0.graph.spec_n(),
                forall|k: int| 0 <= k < n as int
                    ==> (it.graph.tracker.spec_is_alive(k)
                        <==> (it0.graph.tracker.spec_is_alive(k) && !(exists|b: int|
                            0 <= b < a as int
                                && (#[trigger] retired@[b]).spec_idx() == k))),
                it.spec_alive() == it0.spec_alive() - a as int,
                forall|x: int, y: int| it.graph.adjacency.in_range(x, y)
                    && it.graph.tracker.spec_is_alive(x) && it.graph.tracker.spec_is_alive(y)
                    ==> it.graph.adjacency.spec_get(x, y)
                        == it0.graph.adjacency.spec_get(x, y),
            decreases removed - a,
        {
            let node = retired[a];
            proof {
                assert(overloaded(it0, node.spec_idx()));
                assert forall|b: int| 0 <= b < a as int
                    implies (#[trigger] retired@[b]).spec_idx() != node.spec_idx() by {
                    assert(retired@[b].spec_idx() < retired@[a as int].spec_idx());
                }
                assert(it.graph.tracker.spec_is_alive(node.spec_idx()));
            }
            let ghost mid = it;
            it.graph.delete(node);
            proof {
                assert forall|k: int| 0 <= k < n as int
                    implies (it.graph.tracker.spec_is_alive(k)
                        <==> (it0.graph.tracker.spec_is_alive(k) && !(exists|b: int|
                            0 <= b < a as int + 1
                                && (#[trigger] retired@[b]).spec_idx() == k))) by {
                    if k == node.spec_idx() {
                        assert(retired@[a as int].spec_idx() == k);
                    } else {
                        assert(it.graph.tracker.spec_is_alive(k)
                            == mid.graph.tracker.spec_is_alive(k));
                        assert forall|b: int|
                            0 <= b < a as int + 1 && (#[trigger] retired@[b]).spec_idx() == k
                            implies b < a as int by {}
                    }
                }
                assert forall|x: int, y: int|
                    it.graph.adjacency.in_range(x, y) && it.graph.tracker.spec_is_alive(x)
                        && it.graph.tracker.spec_is_alive(y)
                    implies it.graph.adjacency.spec_get(x, y)
                        == it0.graph.adjacency.spec_get(x, y) by {
                    assert(y != node.spec_idx());
                    assert(it.graph.adjacency.spec_get(x, y)
                        == mid.graph.adjacency.spec_get(x, y));
                    assert(mid.graph.tracker.spec_is_alive(x)
                        && mid.graph.tracker.spec_is_alive(y));
                }
            }
            a += 1;
        }

        proof {
            assert forall|k: int| 0 <= k < n as int
                implies (it.graph.tracker.spec_is_alive(k)
                    <==> (it0.graph.tracker.spec_is_alive(k) && !overloaded(it0, k))) by {
                if overloaded(it0, k) {
                    let b = choose|b: int|
                        0 <= b < retired@.len() && (#[trigger] retired@[b]).spec_idx() == k;
                }
                if exists|b: int|
                    0 <= b < retired@.len() && (#[trigger] retired@[b]).spec_idx() == k {
                    let b = choose|b: int|
                        0 <= b < retired@.len() && (#[trigger] retired@[b]).spec_idx() == k;
                    assert(overloaded(it0, k));
                }
            }
        }

        state.put_active(it);
        if removed == 0 {
            state.ks.push(None);
        } else {
            state.ks.push(Some(Ratio::new(1, removed as i64)));
        }
        proof {
            assert(state.iterations@ =~= pre.iterations@.update(
                pre.current_iter as int,
                state.iterations@[pre.current_iter as int],
            ));
            assert forall|k: int| 0 <= k < state.iterations@.len()
                implies (#[trigger] state.iterations@[k]).wf() by {
                if k != pre.current_iter as int {
                    assert(state.iterations@[k] == pre.iterations@[k]);
                }
            }
        }
        true
    }
}

/// How a finished run ended.
#[derive(Clone, Copy, PartialEq, Eq, Structural, Debug)]
pub enum ComputeStatus {
    /// The alive count reached two; the terminal snapshot was discarded.
    Converged,
    /// A step reported failure: the network fragmented, or a measurement
    /// was degenerate. The history keeps its last good state.
    HaltedDisconnected,
}

/// Every sequence is a prefix of itself.
proof fn lemma_prefix_refl<T>(s: Seq<T>)
    ensures
        s.is_prefix_of(s),
{
    assert(s =~= s.subrange(0, s.len() as int));
}

/// A sequence is a prefix of anything it was extended to by one element.
proof fn lemma_prefix_push<T>(s: Seq<T>, t: Seq<T>)
    requires
        t.len() == s.len() + 1,
        forall|k: int| 0 <= k < s.len() ==> t[k] == s[k],
    ensures
        s.is_prefix_of(t),
{
    assert(s =~= t.subrange(0, s.len() as int));
}

/// Prefixes chain.
proof fn lemma_prefix_trans<T>(a: Seq<T>, b: Seq<T>, c: Seq<T>)
    requires
        a.is_prefix_of(b),
        b.is_prefix_of(c),
    ensures
        a.is_prefix_of(c),
{
    assert forall|k: int| 0 <= k < a.len() implies a[k] == c[k] by {
        assert(a[k] == b.subrange(0, a.len() as int)[k]);
        assert(b[k] == c.subrange(0, b.len() as int)[k]);
    }
    assert(a =~= c.subrange(0, a.len() as int));
}

/// A snapshot on which a round is guaranteed to record its measurements
/// and take its snapshot: more than two alive nodes, every alive pair
/// mutually reachable.
pub open spec fn round_premise(it: Iteration) -> bool {
    &&& it.spec_alive() > 2
    &&& forall|s: int, t: int|
        it.graph.tracker.spec_is_alive(s) && it.graph.tracker.spec_is_alive(t)
            ==> reaches(it.graph.adjacency, it.graph.tracker, s, t)
}

/// The driver of the cascading-failure simulation: owns the history and
/// advances it one canonical round at a time until convergence or a halt.
pub struct Compute {
    pub state: State,
}

impl Compute {
    /// Seeds the run with iteration zero built from the topology.
    pub fn new(desc: &GraphDesc, alpha: Ratio) -> (r: Result<Compute, TopologyError>)
        requires
            alpha_ok(alpha),
        ensures
            r is Ok <==> (desc.spec_node_count() <= crate::mat::MAX_NODES && desc_ok(*desc)),
            r matches Ok(c) ==> ({
                &&& c.state.wf()
                &&& c.state.alpha == alpha
                &&& c.state.iterations@.len() == 1
                &&& c.state.current_iter == 0
                &&& c.state.ks@.len() == 0
                &&& c.state.beta_deltas@.len() == 0
                &&& c.state.active().graph.spec_n() == desc.spec_node_count()
                &&& c.state.active().spec_alive() == desc.spec_node_count()
                &&& forall|i: int, j: int| c.state.active().graph.adjacency.in_range(i, j)
                    ==> c.state.active().graph.adjacency.spec_get(i, j)
                        == crate::graph::desc_edge(*desc, i, j)
            }),
    {
        let state = match State::new(desc, alpha) {
            Ok(s) => s,
            Err(e) => {
                return Err(e);
            },
        };
        Ok(Compute { state })
    }

    pub fn state(&self) -> (r: &State)
        ensures
            *r == self.state,
    {
        &self.state
    }

    /// One canonical round: measure the pre-removal state, snapshot it,
    /// remove the most loaded node, re-measure, and cascade removal to
    /// every node over its pre-removal capacity. Returns false when a
    /// step reported failure and the round stopped early.
    #[verifier::rlimit(100)]
    fn round(state: &mut State) -> (r: bool)
        requires
            old(state).wf(),
            old(state).current_iter as int == old(state).iterations@.len() - 1,
        ensures
            final(state).wf(),
            final(state).current_iter as int == final(state).iterations@.len() - 1,
            final(state).alpha == old(state).alpha,
            final(state).iterations@.len() == old(state).iterations@.len()
                || final(state).iterations@.len() == old(state).iterations@.len() + 1,
            forall|k: int| 0 <= k < old(state).iterations@.len()
                ==> (#[trigger] final(state).iterations@[k]).spec_alive()
                    == old(state).iterations@[k].spec_alive(),
            final(state).iterations@.len() == old(state).iterations@.len() + 1
                ==> final(state).iterations@.last().spec_alive()
                    < old(state).active().spec_alive(),
            r ==> final(state).iterations@.len() == old(state).iterations@.len() + 1,
            round_premise(old(state).active())
                ==> final(state).iterations@.len() == old(state).iterations@.len() + 1,
            // recorded snapshots below the round's target are never touched
            forall|k: int| 0 <= k < old(state).iterations@.len() - 1
                ==> #[trigger] final(state).iterations@[k] == old(state).iterations@[k],
            // the round's target keeps its topology; only metrics and path
            // data on it are rewritten
            final(state).iterations@[old(state).iterations@.len() - 1].graph.tracker
                == old(state).active().graph.tracker,
            final(state).iterations@[old(state).iterations@.len() - 1].graph.adjacency
                == old(state).active().graph.adjacency,
            // the logs only ever grow at the end
            old(state).ks@.is_prefix_of(final(state).ks@),
            old(state).beta_deltas@.is_prefix_of(final(state).beta_deltas@),
            r ==> final(state).ks@.len() == old(state).ks@.len() + 1
                && final(state).beta_deltas@.len() == old(state).beta_deltas@.len() + 1,
            !r ==> final(state).ks@ == old(state).ks@
                && final(state).beta_deltas@.len() - old(state).beta_deltas@.len()
                    == final(state).iterations@.len() - old(state).iterations@.len(),
    {
        let ghost pre0 = old(state).active();
        let s1 = (UpdatePaths).compute(state);
        if !s1 {
            proof {
                if round_premise(pre0) {
                    let (st, tt) = choose|st: int, tt: int|
                        pre0.graph.tracker.spec_is_alive(st)
                            && pre0.graph.tracker.spec_is_alive(tt)
                            && !reaches(pre0.graph.adjacency, pre0.graph.tracker, st, tt);
                    assert(false);
                }
            }
            proof {
                lemma_prefix_refl(state.ks@);
                lemma_prefix_refl(state.beta_deltas@);
            }
            return false;
        }
        let s2 = (Zmax).compute(state);
        if !s2 {
            proof {
                if round_premise(pre0) {
                    let g1 = state.active().graph;
                    assert(g1.tracker == pre0.graph.tracker);
                    let i0 = choose|i: int|
                        g1.tracker.spec_is_alive(i)
                            && #[trigger] row_cost_sum(g1, i, g1.spec_n()) == 0;
                    crate::node::lemma_count_true_bounds(g1.tracker.status(), g1.spec_n());
                    lemma_exists_other_alive(g1.tracker, i0);
                    let j0 = choose|j: int| g1.tracker.spec_is_alive(j) && j != i0;
                    assert(g1.path_finder.costs.spec_get(i0, j0) >= CONNECTION_COST);
                    lemma_row_cost_sum_pos(g1, i0, j0, g1.spec_n());
                    assert(false);
                }
            }
            proof {
                lemma_prefix_refl(state.ks@);
                lemma_prefix_refl(state.beta_deltas@);
            }
            return false;
        }
        let ghost post2 = state.active();
        let s3 = (Betweeness).compute(state);
        if !s3 {
            proof {
                // the resilience step only acts on three or more alive
                // nodes, so the betweenness step cannot find none
                assert(post2.spec_alive() > 2);
                assert(false);
            }
            return false;
        }
        let s4 = (Capacity).compute(state);
        if !s4 {
            proof {
                assert(state.active().spec_alive() > 2);
                assert(false);
            }
            return false;
        }
        let ghost measured = state.active();
        let s5 = (CopyIteration).compute(state);
        proof {
            crate::graph::lemma_same_graph(measured.graph, state.active().graph);
            assert(state.active().info.max_betweenness == measured.info.max_betweenness);
            assert(state.active().graph.tracker.spec_is_alive(
                measured.info.max_betweenness.spec_idx()));
        }
        let s6 = (DeleteMaxBetweenness).compute(state);
        if !s6 {
            proof {
                assert(false);
            }
            return false;
        }
        let s7 = (UpdatePaths).compute(state);
        if !s7 {
            proof {
                lemma_prefix_refl(state.ks@);
                lemma_prefix_push(old(state).beta_deltas@, state.beta_deltas@);
            }
            return false;
        }
        let s8 = (Betweeness).compute(state);
        if !s8 {
            proof {
                lemma_prefix_refl(state.ks@);
                lemma_prefix_push(old(state).beta_deltas@, state.beta_deltas@);
            }
            return false;
        }
        let ghost pre9 = state.active();
        let s9 = (DeleteOverloaded).compute(state);
        proof {
            lemma_count_overloaded_bounds(pre9, pre9.graph.spec_n());
            lemma_prefix_push(old(state).ks@, state.ks@);
            lemma_prefix_push(old(state).beta_deltas@, state.beta_deltas@);
        }
        true
    }

    /// Runs rounds until the alive count reaches two — the terminal
    /// snapshot is then discarded — or a step fails. Alive counts decrease
    /// strictly from snapshot to snapshot, so at most one round per
    /// initially alive node ever runs.
    pub fn run(&mut self) -> (r: ComputeStatus)
        requires
            old(self).state.wf(),
            old(self).state.current_iter as int == old(self).state.iterations@.len() - 1,
            old(self).state.iterations@.len() > 1
                || old(self).state.active().spec_alive() != 2,
            forall|k: int| 0 <= k < old(self).state.iterations@.len() - 1
                ==> (#[trigger] old(self).state.iterations@[k + 1]).spec_alive()
                    < old(self).state.iterations@[k].spec_alive(),
        ensures
            final(self).state.wf(),
            final(self).state.alpha == old(self).state.alpha,
            forall|k: int| 0 <= k < final(self).state.iterations@.len() - 1
                ==> (#[trigger] final(self).state.iterations@[k + 1]).spec_alive()
                    < final(self).state.iterations@[k].spec_alive(),
            final(self).state.iterations@.len()
                <= old(self).state.iterations@.len() + old(self).state.active().spec_alive(),
            r == ComputeStatus::Converged ==> final(self).state.current_iter == 0
                && final(self).state.iterations@.last().spec_alive() > 2,
            r == ComputeStatus::HaltedDisconnected
                ==> final(self).state.current_iter as int
                    == final(self).state.iterations@.len() - 1,
            // a well-connected start is never dismissed without work
            round_premise(old(self).state.active())
                ==> final(self).state.iterations@.len()
                    > old(self).state.iterations@.len() || r == ComputeStatus::Converged,
            // the history is append-only but for the single terminal pop:
            // snapshots recorded before the run keep their exact contents,
            // and the entry snapshot keeps its topology while retained
            forall|k: int| 0 <= k < old(self).state.iterations@.len() - 1
                ==> #[trigger] final(self).state.iterations@[k]
                    == old(self).state.iterations@[k],
            old(self).state.iterations@.len() - 1 < final(self).state.iterations@.len()
                ==> final(self).state.iterations@[old(self).state.iterations@.len()
                        - 1].graph.tracker == old(self).state.active().graph.tracker
                    && final(self).state.iterations@[old(self).state.iterations@.len()
                        - 1].graph.adjacency == old(self).state.active().graph.adjacency,
            // the logs only grow, one entry per completed round, with at
            // most one extra deviation from a round cut short after its
            // snapshot
            old(self).state.ks@.is_prefix_of(final(self).state.ks@),
            old(self).state.beta_deltas@.is_prefix_of(final(self).state.beta_deltas@),
            r == ComputeStatus::Converged
                ==> final(self).state.beta_deltas@.len() - old(self).state.beta_deltas@.len()
                        == final(self).state.ks@.len() - old(self).state.ks@.len()
                    && final(self).state.iterations@.len()
                        == old(self).state.iterations@.len()
                            + (final(self).state.ks@.len() - old(self).state.ks@.len()) - 1,
            r == ComputeStatus::HaltedDisconnected
                ==> final(self).state.iterations@.len()
                        == old(self).state.iterations@.len()
                            + (final(self).state.beta_deltas@.len()
                                - old(self).state.beta_deltas@.len())
                    && (final(self).state.beta_deltas@.len()
                            - old(self).state.beta_deltas@.len()
                                == final(self).state.ks@.len() - old(self).state.ks@.len()
                        || final(self).state.beta_deltas@.len()
                            - old(self).state.beta_deltas@.len()
                                == final(self).state.ks@.len() - old(self).state.ks@.len()
                                    + 1),
            // convergence means work was done, or the run began at the
            // terminal state and only the trailing snapshot was discarded
            r == ComputeStatus::Converged
                ==> final(self).state.ks@.len() > old(self).state.ks@.len()
                    || (old(self).state.active().spec_alive() == 2
                        && final(self).state.iterations@
                            == old(self).state.iterations@.drop_last()
                        && final(self).state.ks@ == old(self).state.ks@
                        && final(self).state.beta_deltas@ == old(self).state.beta_deltas@),
    {
        let ghost len0 = self.state.iterations@.len() as int;
        let ghost ks0 = self.state.ks@.len() as int;
        let ghost beta0 = self.state.beta_deltas@.len() as int;
        let ghost alive0 = self.state.active().spec_alive();
        loop
            invariant
                self.state.wf(),
                self.state.alpha == old(self).state.alpha,
                self.state.current_iter as int == self.state.iterations@.len() - 1,
                self.state.iterations@.len() >= len0,
                len0 == old(self).state.iterations@.len() as int,
                len0 >= 1,
                old(self).state.current_iter as int == len0 - 1,
                alive0 == old(self).state.active().spec_alive(),
                self.state.iterations@.len() - len0
                    <= alive0 - self.state.active().spec_alive(),
                self.state.iterations@.len() > 1 || self.state.active().spec_alive() != 2,
                forall|k: int| 0 <= k < self.state.iterations@.len() - 1
                    ==> (#[trigger] self.state.iterations@[k + 1]).spec_alive()
                        < self.state.iterations@[k].spec_alive(),
                self.state.iterations@.len() > len0
                    || self.state.active() == old(self).state.active(),
                ks0 == old(self).state.ks@.len() as int,
                beta0 == old(self).state.beta_deltas@.len() as int,
                forall|k: int| 0 <= k < len0 - 1
                    ==> #[trigger] self.state.iterations@[k]
                        == old(self).state.iterations@[k],
                self.state.iterations@[len0 - 1].graph.tracker
                    == old(self).state.active().graph.tracker,
                self.state.iterations@[len0 - 1].graph.adjacency
                    == old(self).state.active().graph.adjacency,
                old(self).state.ks@.is_prefix_of(self.state.ks@),
                old(self).state.beta_deltas@.is_prefix_of(self.state.beta_deltas@),
                self.state.iterations@.len() - len0 == self.state.ks@.len() - ks0,
                self.state.ks@.len() - ks0 == self.state.beta_deltas@.len() - beta0,
            decreases self.state.active().spec_alive(),
        {
            let alive = self.state.get().graph.alive();
            if alive == 2 {
                proof {
                    assert(self.state.iterations@.len() > 1);
                }
                let ghost pre_pop = self.state.iterations@;
                let ghost ks_growth = self.state.ks@.len() - ks0;
                self.state.pop();
                proof {
                    assert forall|k: int| 0 <= k < self.state.iterations@.len()
                        implies (#[trigger] self.state.iterations@[k]).wf() by {}
                    let k0 = pre_pop.len() - 2;
                    assert(pre_pop[k0 + 1].spec_alive() < pre_pop[k0].spec_alive());
                    assert(self.state.iterations@.last() == pre_pop[k0]);
                    if pre_pop.len() > len0 {
                        assert(self.state.iterations@[len0 - 1] == pre_pop[len0 - 1]);
                    }
                    if ks_growth == 0 {
                        assert(pre_pop.len() == len0);
                        assert forall|k: int| 0 <= k < len0
                            implies pre_pop[k] == old(self).state.iterations@[k] by {
                            if k == len0 - 1 {
                                assert(pre_pop[k] == old(self).state.active());
                                assert(old(self).state.active()
                                    == old(self).state.iterations@[len0 - 1]);
                            }
                        }
                        assert(pre_pop =~= old(self).state.iterations@);
                        assert(self.state.iterations@
                            =~= old(self).state.iterations@.drop_last());
                        assert(self.state.ks@ =~= old(self).state.ks@);
                        assert(self.state.beta_deltas@ =~= old(self).state.beta_deltas@);
                    }
                }
                return ComputeStatus::Converged;
            }
            let ghost pre_round = self.state;
            let completed = Self::round(&mut self.state);
            proof {
                lemma_prefix_trans(old(self).state.ks@, pre_round.ks@, self.state.ks@);
                lemma_prefix_trans(
                    old(self).state.beta_deltas@,
                    pre_round.beta_deltas@,
                    self.state.beta_deltas@,
                );
                assert forall|k: int| 0 <= k < len0 - 1
                    implies #[trigger] self.state.iterations@[k]
                        == old(self).state.iterations@[k] by {
                    assert(self.state.iterations@[k] == pre_round.iterations@[k]);
                }
                assert(self.state.iterations@[len0 - 1].graph.tracker
                    == old(self).state.active().graph.tracker
                    && self.state.iterations@[len0 - 1].graph.adjacency
                        == old(self).state.active().graph.adjacency) by {
                    if pre_round.iterations@.len() > len0 {
                        assert(0 <= len0 - 1 < pre_round.iterations@.len() - 1);
                        assert(self.state.iterations@[len0 - 1]
                            == pre_round.iterations@[len0 - 1]);
                    } else {
                        assert(pre_round.iterations@.len() == len0);
                        assert(pre_round.active() == pre_round.iterations@[len0 - 1]);
                    }
                }
                assert forall|k: int| 0 <= k < self.state.iterations@.len() - 1
                    implies (#[trigger] self.state.iterations@[k + 1]).spec_alive()
                        < self.state.iterations@[k].spec_alive() by {
                    if k + 1 < pre_round.iterations@.len() {
                        assert(self.state.iterations@[k].spec_alive()
                            == pre_round.iterations@[k].spec_alive());
                        assert(self.state.iterations@[k + 1].spec_alive()
                            == pre_round.iterations@[k + 1].spec_alive());
                    } else {
                        assert(self.state.iterations@[k].spec_alive()
                            == pre_round.iterations@[k].spec_alive());
                        assert(self.state.iterations@[k + 1]
                            == self.state.iterations@.last());
                        assert(pre_round.iterations@[k] == pre_round.active());
                    }
                }
            }
            if !completed {
                proof {
                    if round_premise(old(self).state.active())
                        && pre_round.iterations@.len() == len0 {
                        assert(pre_round.active() == old(self).state.active());
                        assert(self.state.iterations@.len() == len0 + 1);
                    }
                    assert(self.state.ks@.len() == pre_round.ks@.len());
                    assert(self.state.iterations@.len() - pre_round.iterations@.len()
                        == self.state.beta_deltas@.len() - pre_round.beta_deltas@.len());
                }
                return ComputeStatus::HaltedDisconnected;
            }
            proof {
                assert(self.state.active() == self.state.iterations@.last());
                assert(self.state.active().spec_alive()
                    < pre_round.active().spec_alive());
            }
        }
    }
}

} // verus!
