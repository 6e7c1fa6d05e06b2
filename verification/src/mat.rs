//! Dense N x N pair matrix addressable by two distinct nodes. The diagonal
//! is inaccessible by design: self-relations are undefined, not zero.

use vstd::prelude::*;

use crate::node::{Node, NodeStatusTracker};

verus! {

/// Largest node universe a pair matrix accepts; keeps `n * n` and all
/// row-major indices within `u32` range on any target.
pub const MAX_NODES: usize = 2048;

/// An `n * n` matrix stored row-major. `fill` is the value a fresh cell
/// holds and the value a deleted cell returns to.
#[verifier::ext_equal]
#[derive(Debug, PartialEq)]
pub struct Mat<T> {
    pub array: Vec<T>,
    pub node_count: usize,
    pub fill: T,
}

impl<T: Copy> Mat<T> {
    pub open spec fn spec_n(self) -> int {
        self.node_count as int
    }

    pub open spec fn wf(self) -> bool {
        &&& self.array@.len() == self.spec_n() * self.spec_n()
        &&& self.node_count <= MAX_NODES
    }

    /// Entry at row `i`, column `j`.
    pub open spec fn spec_get(self, i: int, j: int) -> T {
        self.array@[i * self.spec_n() + j]
    }

    /// Both indices name a node and they differ: the cell is addressable.
    pub open spec fn in_range(self, i: int, j: int) -> bool {
        0 <= i < self.spec_n() && 0 <= j < self.spec_n() && i != j
    }

    /// A fresh matrix holds `fill` everywhere.
    pub fn new(node_count: usize, fill: T) -> (r: Mat<T>)
        requires
            node_count <= MAX_NODES,
        ensures
            r.wf(),
            r.spec_n() == node_count as int,
            r.fill == fill,
            forall|i: int, j: int| r.in_range(i, j) ==> r.spec_get(i, j) == fill,
    {
        proof {
            assert(node_count as int * node_count as int
                <= MAX_NODES as int * MAX_NODES as int) by (nonlinear_arith)
                requires
                    node_count as int <= MAX_NODES as int,
                    0 <= node_count as int,
            ;
        }
        let total = node_count * node_count;
        let mut array: Vec<T> = Vec::new();
        let mut k: usize = 0;
        while k < total
            invariant
                k <= total,
                array@.len() == k as int,
                forall|p: int| 0 <= p < k as int ==> array@[p] == fill,
            decreases total - k,
        {
            array.push(fill);
            k += 1;
        }
        let r = Mat { array, node_count, fill };
        proof {
            assert forall|i: int, j: int| r.in_range(i, j) implies r.spec_get(i, j) == fill by {
                lemma_row_major_bounds(node_count as int, i, j);
            }
        }
        r
    }

    /// No value exists for a self-pair: the diagonal read fails.
    pub fn get(&self, i: Node, j: Node) -> (r: Option<T>)
        requires
            self.wf(),
            0 <= i.spec_idx() < self.spec_n(),
            0 <= j.spec_idx() < self.spec_n(),
        ensures
            i.spec_idx() != j.spec_idx() ==> r == Some(self.spec_get(i.spec_idx(), j.spec_idx())),
            i.spec_idx() == j.spec_idx() ==> r is None,
    {
        if i.idx() != j.idx() {
            proof {
                lemma_row_major_bounds(self.spec_n(), i.spec_idx(), j.spec_idx());
            }
            Some(self.array[self.node_count * i.idx() + j.idx()])
        } else {
            None
        }
    }

    /// Writes one off-diagonal cell; the diagonal is not addressable.
    pub fn write(&mut self, i: Node, j: Node, value: T)
        requires
            old(self).wf(),
            old(self).in_range(i.spec_idx(), j.spec_idx()),
        ensures
            final(self).wf(),
            final(self).spec_n() == old(self).spec_n(),
            final(self).fill == old(self).fill,
            final(self).spec_get(i.spec_idx(), j.spec_idx()) == value,
            forall|a: int, b: int| final(self).in_range(a, b) && !(a == i.spec_idx() && b == j.spec_idx())
                ==> final(self).spec_get(a, b) == old(self).spec_get(a, b),
    {
        proof {
            lemma_row_major_bounds(self.spec_n(), i.spec_idx(), j.spec_idx());
        }
        let idx = self.node_count * i.idx() + j.idx();
        self.array.set(idx, value);
        proof {
            assert forall|a: int, b: int|
                self.in_range(a, b) && !(a == i.spec_idx() && b == j.spec_idx())
                implies self.spec_get(a, b) == old(self).spec_get(a, b) by {
                lemma_row_major_bounds(self.spec_n(), a, b);
                lemma_row_major_injective(self.spec_n(), a, b, i.spec_idx(), j.spec_idx());
            }
        }
    }

    /// Resets, for every node alive in `tracker`, the entry from that node
    /// to `node` back to `fill` — erases a dead node's incoming relations
    /// without knowing who pointed at it.
    pub fn delete(&mut self, tracker: &NodeStatusTracker, node: Node)
        requires
            old(self).wf(),
            tracker.wf(),
            tracker.spec_node_count() == old(self).spec_n(),
            0 <= node.spec_idx() < old(self).spec_n(),
        ensures
            final(self).wf(),
            final(self).spec_n() == old(self).spec_n(),
            final(self).fill == old(self).fill,
            forall|j: int| tracker.spec_is_alive(j) && j != node.spec_idx()
                ==> final(self).spec_get(j, node.spec_idx()) == final(self).fill,
            forall|a: int, b: int| final(self).in_range(a, b)
                && !(b == node.spec_idx() && tracker.spec_is_alive(a))
                ==> final(self).spec_get(a, b) == old(self).spec_get(a, b),
    {
        let ghost order = crate::node::alive_listing(tracker.status());
        proof {
            crate::node::lemma_alive_listing_props(tracker.status());
        }
        let alive = tracker.iter_alive().into_vec();
        let n = alive.len();
        let mut k: usize = 0;
        let fill = self.fill;
        while k < n
            invariant
                k <= n,
                n as int == order.len(),
                alive@ == order,
                self.wf(),
                self.spec_n() == old(self).spec_n(),
                self.fill == old(self).fill,
                fill == self.fill,
                0 <= node.spec_idx() < self.spec_n(),
                forall|a: int| 0 <= a < order.len()
                    ==> 0 <= #[trigger] order[a].spec_idx() < self.spec_n(),
                forall|a: int, b: int| 0 <= a < b < order.len()
                    ==> order[a].spec_idx() < order[b].spec_idx(),
                forall|a: int| 0 <= a < k as int && order[a].spec_idx() != node.spec_idx()
                    ==> self.spec_get(#[trigger] order[a].spec_idx(), node.spec_idx()) == self.fill,
                forall|a: int, b: int| self.in_range(a, b)
                    && !(b == node.spec_idx()
                        && exists|c: int| 0 <= c < k as int && #[trigger] order[c].spec_idx() == a)
                    ==> self.spec_get(a, b) == old(self).spec_get(a, b),
            decreases n - k,
        {
            let j = alive[k];
            proof {
                assert forall|a: int| 0 <= a < k as int
                    implies order[a].spec_idx() != order[k as int].spec_idx() by {
                    assert(order[a].spec_idx() < order[k as int].spec_idx());
                }
            }
            let ghost pre = *self;
            if j.idx() != node.idx() {
                self.write(j, node, fill);
            }
            proof {
                assert forall|a: int| 0 <= a < k as int + 1
                    && order[a].spec_idx() != node.spec_idx()
                    implies self.spec_get(#[trigger] order[a].spec_idx(), node.spec_idx())
                        == self.fill by {
                    if a < k as int {
                        assert(pre.spec_get(order[a].spec_idx(), node.spec_idx()) == pre.fill);
                        assert(order[a].spec_idx() != order[k as int].spec_idx());
                        assert(self.in_range(order[a].spec_idx(), node.spec_idx()));
                    }
                }
                assert forall|a: int, b: int|
                    self.in_range(a, b)
                        && !(b == node.spec_idx()
                            && exists|c: int|
                                0 <= c < k as int + 1 && #[trigger] order[c].spec_idx() == a)
                    implies self.spec_get(a, b) == old(self).spec_get(a, b) by {
                    assert(!(b == node.spec_idx()
                        && exists|c: int| 0 <= c < k as int && #[trigger] order[c].spec_idx() == a));
                }
            }
            k += 1;
        }
        proof {
            assert forall|j: int| tracker.spec_is_alive(j) && j != node.spec_idx()
                implies self.spec_get(j, node.spec_idx()) == self.fill by {
                let a = choose|a: int| 0 <= a < order.len() && #[trigger] order[a].spec_idx() == j;
                assert(self.spec_get(order[a].spec_idx(), node.spec_idx()) == self.fill);
            }
        }
    }

    /// A copy of one row, for algorithms that scan one node's relations.
    pub fn row(&self, node: Node) -> (r: Row<T>)
        requires
            self.wf(),
            0 <= node.spec_idx() < self.spec_n(),
        ensures
            r.row@.len() == self.spec_n(),
            r.row_id as int == node.spec_idx(),
            forall|j: int| 0 <= j < self.spec_n()
                ==> r.row@[j] == self.spec_get(node.spec_idx(), j),
    {
        proof {
            assert(node.spec_idx() * self.spec_n() + self.spec_n() <= self.spec_n() * self.spec_n()
                && self.spec_n() * self.spec_n() <= MAX_NODES as int * MAX_NODES as int
                && 0 <= node.spec_idx() * self.spec_n())
                by (nonlinear_arith)
                requires
                    0 <= node.spec_idx() < self.spec_n(),
                    self.spec_n() <= MAX_NODES as int,
            ;
        }
        let start = self.node_count * node.idx();
        let mut row: Vec<T> = Vec::new();
        let mut k: usize = 0;
        while k < self.node_count
            invariant
                k <= self.node_count,
                self.wf(),
                0 <= node.spec_idx() < self.spec_n(),
                start as int == node.spec_idx() * self.spec_n(),
                start as int + self.spec_n() <= self.array@.len(),
                start as int + self.spec_n() <= MAX_NODES as int * MAX_NODES as int,
                row@.len() == k as int,
                forall|j: int| 0 <= j < k as int ==> row@[j] == self.spec_get(node.spec_idx(), j),
            decreases self.node_count - k,
        {
            row.push(self.array[start + k]);
            k += 1;
        }
        Row { row, row_id: node.idx() }
    }
}

impl<T: Copy> Mat<T> {
    /// A deep copy, cell for cell.
    pub fn duplicate(&self) -> (r: Mat<T>)
        ensures
            r.array@ == self.array@,
            r.node_count == self.node_count,
            r.fill == self.fill,
    {
        Mat { array: copy_vec(&self.array), node_count: self.node_count, fill: self.fill }
    }
}

impl Mat<bool> {
    /// Marks the pair `(i, j)` as related.
    pub fn set(&mut self, i: Node, j: Node)
        requires
            old(self).wf(),
            old(self).in_range(i.spec_idx(), j.spec_idx()),
        ensures
            final(self).wf(),
            final(self).spec_n() == old(self).spec_n(),
            final(self).fill == old(self).fill,
            final(self).spec_get(i.spec_idx(), j.spec_idx()),
            forall|a: int, b: int| final(self).in_range(a, b) && !(a == i.spec_idx() && b == j.spec_idx())
                ==> final(self).spec_get(a, b) == old(self).spec_get(a, b),
    {
        self.write(i, j, true);
    }

    /// Clears the pair `(i, j)`.
    pub fn unset(&mut self, i: Node, j: Node)
        requires
            old(self).wf(),
            old(self).in_range(i.spec_idx(), j.spec_idx()),
        ensures
            final(self).wf(),
            final(self).spec_n() == old(self).spec_n(),
            final(self).fill == old(self).fill,
            !final(self).spec_get(i.spec_idx(), j.spec_idx()),
            forall|a: int, b: int| final(self).in_range(a, b) && !(a == i.spec_idx() && b == j.spec_idx())
                ==> final(self).spec_get(a, b) == old(self).spec_get(a, b),
    {
        self.write(i, j, false);
    }

    pub fn is_set(&self, i: Node, j: Node) -> (r: bool)
        requires
            self.wf(),
            self.in_range(i.spec_idx(), j.spec_idx()),
        ensures
            r == self.spec_get(i.spec_idx(), j.spec_idx()),
    {
        proof {
            lemma_row_major_bounds(self.spec_n(), i.spec_idx(), j.spec_idx());
        }
        self.array[self.node_count * i.idx() + j.idx()]
    }
}

/// Row-major cell index stays within the matrix, and within `u32` range
/// for a universe capped at `MAX_NODES`.
proof fn lemma_row_major_bounds(n: int, i: int, j: int)
    requires
        0 <= i < n,
        0 <= j < n,
        n <= MAX_NODES as int,
    ensures
        0 <= i * n + j < n * n,
        n * n <= MAX_NODES as int * MAX_NODES as int,
{
    assert(0 <= i * n + j < n * n && n * n <= MAX_NODES as int * MAX_NODES as int)
        by (nonlinear_arith)
        requires
            0 <= i < n,
            0 <= j < n,
            n <= MAX_NODES as int,
    ;
}

/// A vector of `n` copies of one plain value.
pub fn fill_vec<T: Copy>(n: usize, value: T) -> (r: Vec<T>)
    ensures
        r@.len() == n as int,
        forall|p: int| 0 <= p < n as int ==> r@[p] == value,
{
    let mut out: Vec<T> = Vec::new();
    let mut k: usize = 0;
    while k < n
        invariant
            k <= n,
            out@.len() == k as int,
            forall|p: int| 0 <= p < k as int ==> out@[p] == value,
        decreases n - k,
    {
        out.push(value);
        k += 1;
    }
    out
}

/// Element-for-element copy of a vector of plain values.
pub fn copy_vec<T: Copy>(v: &Vec<T>) -> (r: Vec<T>)
    ensures
        r@ == v@,
{
    let mut out: Vec<T> = Vec::new();
    let n = v.len();
    let mut k: usize = 0;
    while k < n
        invariant
            k <= n,
            n as int == v@.len(),
            out@.len() == k as int,
            forall|p: int| 0 <= p < k as int ==> out@[p] == v@[p],
        decreases n - k,
    {
        out.push(v[k]);
        k += 1;
    }
    proof {
        assert(out@ =~= v@);
    }
    out
}

/// Distinct cells have distinct row-major indices.
proof fn lemma_row_major_injective(n: int, a: int, b: int, i: int, j: int)
    requires
        0 <= a < n,
        0 <= b < n,
        0 <= i < n,
        0 <= j < n,
        !(a == i && b == j),
    ensures
        a * n + b != i * n + j,
{
    assert(a * n + b != i * n + j) by (nonlinear_arith)
        requires
            0 <= a < n,
            0 <= b < n,
            0 <= i < n,
            0 <= j < n,
            !(a == i && b == j),
    ;
}

/// One copied row of a pair matrix, with its own row index; the diagonal
/// entry is present in storage but never readable.
#[verifier::ext_equal]
#[derive(Debug, PartialEq)]
pub struct Row<T> {
    pub row: Vec<T>,
    pub row_id: usize,
}

impl<T: Copy> Row<T> {
    /// The diagonal read fails; every other in-range read succeeds.
    pub fn get(&self, i: Node) -> (r: Option<T>)
        requires
            0 <= i.spec_idx() < self.row@.len(),
        ensures
            i.spec_idx() != self.row_id as int ==> r == Some(self.row@[i.spec_idx()]),
            i.spec_idx() == self.row_id as int ==> r is None,
    {
        if i.idx() != self.row_id {
            Some(self.row[i.idx()])
        } else {
            None
        }
    }

    /// Iterator over the row, excluding the diagonal entry.
    pub fn iter(&self) -> (r: RowIter<T>)
        ensures
            r.row@ == self.row@,
            r.row_id == self.row_id,
            r.current == 0,
    {
        RowIter { row: copy_vec(&self.row), row_id: self.row_id, current: 0 }
    }
}

/// Walks one row in column order, skipping the diagonal entry.
#[derive(Debug, PartialEq)]
pub struct RowIter<T> {
    pub row: Vec<T>,
    pub row_id: usize,
    pub current: usize,
}

impl<T: Copy> RowIter<T> {
    /// Yields exactly the first off-diagonal entry at the cursor — the
    /// cursor itself, or one past it when the cursor sits on the diagonal
    /// — and nothing once no off-diagonal column remains.
    pub fn next(&mut self) -> (r: Option<T>)
        requires
            old(self).current <= old(self).row@.len(),
        ensures
            final(self).row@ == old(self).row@,
            final(self).row_id == old(self).row_id,
            ({
                let start = if old(self).current == old(self).row_id {
                    old(self).current + 1
                } else {
                    old(self).current as int
                };
                &&& (r is Some <==> start < old(self).row@.len())
                &&& r is Some ==> r == Some(old(self).row@[start])
                    && final(self).current == start + 1
                &&& r is None ==> final(self).current == if start
                    <= old(self).row@.len() {
                    start
                } else {
                    old(self).current as int
                }
            }),
    {
        let mut k = self.current;
        if k < self.row.len() && k == self.row_id {
            k += 1;
        }
        if k < self.row.len() {
            let value = self.row[k];
            self.current = k + 1;
            Some(value)
        } else {
            self.current = k;
            None
        }
    }
}

} // verus!
