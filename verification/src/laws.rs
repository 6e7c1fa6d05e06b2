//! Relabeling law for the betweenness count: permuting node ids without
//! changing liveness or the (symmetric) path-membership record permutes
//! betweenness values identically. The count is stated set-theoretically
//! and tied to the recursive definition the betweenness step is proved
//! against.

use vstd::prelude::*;
use vstd::relations::injective_on;
use vstd::set_lib::{lemma_map_size, lemma_set_disjoint_lens};

use crate::compute::{pairs_through, row_pairs};
use crate::graph::Graph;

verus! {

/// Some index below `n` maps to `j` under `p`.
pub open spec fn hits(p: spec_fn(int) -> int, n: int, j: int) -> bool {
    exists|i: int| 0 <= i < n && #[trigger] p(i) == j
}

/// The alive targets `t` with `s < t < m` whose pair `(s, t)` passes
/// through `x`.
pub open spec fn row_set(g: Graph, x: int, s: int, m: int) -> Set<int> {
    Set::new(
        |t: int|
            s < t < m && g.tracker.spec_is_alive(t) && g.path_finder.spec_contains(s, t, x),
    )
}

/// The alive unordered pairs `(s, t)`, `s < t`, `s < m`, whose recorded
/// shortest path passes through `x`.
pub open spec fn pair_set_upto(g: Graph, x: int, m: int) -> Set<(int, int)> {
    Set::new(
        |pr: (int, int)|
            0 <= pr.0 < m && pr.0 < pr.1 < g.spec_n() && g.tracker.spec_is_alive(pr.0)
                && g.tracker.spec_is_alive(pr.1)
                && g.path_finder.spec_contains(pr.0, pr.1, x),
    )
}

/// The full pair set behind the betweenness count of `x`.
pub open spec fn pair_set(g: Graph, x: int) -> Set<(int, int)> {
    pair_set_upto(g, x, g.spec_n())
}

proof fn lemma_row_set_card(g: Graph, x: int, s: int, m: int)
    requires
        s >= 0,
        m <= g.spec_n(),
    ensures
        row_set(g, x, s, m).finite(),
        row_set(g, x, s, m).len() == row_pairs(g, x, s, m),
    decreases m,
{
    if m <= s + 1 || m <= 0 {
        assert(row_set(g, x, s, m) =~= Set::<int>::empty());
    } else {
        lemma_row_set_card(g, x, s, m - 1);
        if g.tracker.spec_is_alive(m - 1) && g.path_finder.spec_contains(s, m - 1, x) {
            assert(row_set(g, x, s, m) =~= row_set(g, x, s, m - 1).insert(m - 1));
            assert(!row_set(g, x, s, m - 1).contains(m - 1));
        } else {
            assert(row_set(g, x, s, m) =~= row_set(g, x, s, m - 1));
        }
    }
}

proof fn lemma_pair_set_card(g: Graph, x: int, m: int)
    requires
        0 <= m <= g.spec_n(),
    ensures
        pair_set_upto(g, x, m).finite(),
        pair_set_upto(g, x, m).len() == pairs_through(g, x, m),
    decreases m,
{
    if m <= 0 {
        assert(pair_set_upto(g, x, m) =~= Set::<(int, int)>::empty());
    } else {
        lemma_pair_set_card(g, x, m - 1);
        if g.tracker.spec_is_alive(m - 1) {
            let rows = row_set(g, x, m - 1, g.spec_n());
            let added = rows.map(|t: int| (m - 1, t));
            lemma_row_set_card(g, x, m - 1, g.spec_n());
            assert(injective_on(|t: int| (m - 1, t), rows));
            lemma_map_size(rows, added, |t: int| (m - 1, t));
            assert(added.len() == row_pairs(g, x, m - 1, g.spec_n()));
            assert(pair_set_upto(g, x, m) =~= pair_set_upto(g, x, m - 1) + added) by {
                assert forall|pr: (int, int)| #[trigger] added.contains(pr)
                    implies pr.0 == m - 1 && row_set(g, x, m - 1, g.spec_n()).contains(pr.1)
                        by {
                    let t = choose|t: int| rows.contains(t) && (m - 1, t) == pr;
                }
                assert forall|pr: (int, int)| #[trigger] pair_set_upto(g, x, m).contains(pr)
                        && pr.0 == m - 1
                    implies added.contains(pr) by {
                    assert(rows.contains(pr.1));
                    assert(added.contains((m - 1, pr.1)));
                }
            }
            assert(pair_set_upto(g, x, m - 1).disjoint(added)) by {
                assert forall|pr: (int, int)| #[trigger] added.contains(pr)
                    implies pr.0 == m - 1 by {
                    let t = choose|t: int| rows.contains(t) && (m - 1, t) == pr;
                }
            }
            lemma_set_disjoint_lens(pair_set_upto(g, x, m - 1), added);
        } else {
            assert(pair_set_upto(g, x, m) =~= pair_set_upto(g, x, m - 1));
        }
    }
}

/// Permuting node ids permutes betweenness counts identically, provided
/// the relabeling preserves liveness and the path-membership record, and
/// that record is symmetric in the pair order — as the path finder always
/// records it. Betweenness is what the betweenness step stores:
/// `pairs_through` over the snapshot.
pub proof fn lemma_betweenness_permutation(
    g1: Graph,
    g2: Graph,
    p: spec_fn(int) -> int,
    x: int,
)
    requires
        g1.spec_n() == g2.spec_n(),
        0 <= x < g1.spec_n(),
        // p permutes the index space
        forall|i: int| 0 <= i < g1.spec_n() ==> 0 <= #[trigger] p(i) < g1.spec_n(),
        forall|i: int, j: int|
            0 <= i < g1.spec_n() && 0 <= j < g1.spec_n() && i != j
                ==> #[trigger] p(i) != #[trigger] p(j),
        forall|j: int| 0 <= j < g1.spec_n() ==> #[trigger] hits(p, g1.spec_n(), j),
        // p preserves liveness and membership
        forall|i: int| 0 <= i < g1.spec_n()
            ==> (g2.tracker.spec_is_alive(#[trigger] p(i)) <==> g1.tracker.spec_is_alive(i)),
        forall|s: int, t: int|
            0 <= s < g1.spec_n() && 0 <= t < g1.spec_n()
                ==> (g2.path_finder.spec_contains(#[trigger] p(s), #[trigger] p(t), p(x))
                    <==> g1.path_finder.spec_contains(s, t, x)),
        // the membership record never distinguishes the pair order
        forall|s: int, t: int|
            0 <= s < g1.spec_n() && 0 <= t < g1.spec_n()
                ==> (g1.path_finder.spec_contains(s, t, x)
                    <==> g1.path_finder.spec_contains(t, s, x)),
    ensures
        pairs_through(g2, p(x), g2.spec_n()) == pairs_through(g1, x, g1.spec_n()),
{
    let n = g1.spec_n();
    let f = |pr: (int, int)|
        if p(pr.0) < p(pr.1) {
            (p(pr.0), p(pr.1))
        } else {
            (p(pr.1), p(pr.0))
        };
    let s1 = pair_set(g1, x);
    let s2 = pair_set(g2, p(x));
    lemma_pair_set_card(g1, x, n);
    lemma_pair_set_card(g2, p(x), n);

    assert(s1.map(f) =~= s2) by {
        assert forall|q: (int, int)| #[trigger] s1.map(f).contains(q)
            implies s2.contains(q) by {
            let pr = choose|pr: (int, int)| s1.contains(pr) && f(pr) == q;
            let (s, t) = pr;
            assert(0 <= s < t < n);
            assert(p(s) != p(t));
            if p(s) < p(t) {
                assert(q == (p(s), p(t)));
                assert(g2.path_finder.spec_contains(p(s), p(t), p(x)));
            } else {
                assert(q == (p(t), p(s)));
                assert(g1.path_finder.spec_contains(t, s, x));
                assert(g2.path_finder.spec_contains(p(t), p(s), p(x)));
            }
        }
        assert forall|q: (int, int)| #[trigger] s2.contains(q)
            implies s1.map(f).contains(q) by {
            let (a, b) = q;
            assert(hits(p, n, a) && hits(p, n, b));
            let s = choose|i: int| 0 <= i < n && #[trigger] p(i) == a;
            let t = choose|i: int| 0 <= i < n && #[trigger] p(i) == b;
            assert(s != t);
            assert(g2.path_finder.spec_contains(p(s), p(t), p(x)));
            assert(g1.path_finder.spec_contains(s, t, x));
            if s < t {
                assert(s1.contains((s, t)));
                assert(f((s, t)) == q);
                assert(s1.map(f).contains(q));
            } else {
                assert(g1.path_finder.spec_contains(t, s, x));
                assert(s1.contains((t, s)));
                assert(f((t, s)) == q);
                assert(s1.map(f).contains(q));
            }
        }
    }

    assert(injective_on(f, s1)) by {
        assert forall|q1: (int, int), q2: (int, int)|
            s1.contains(q1) && s1.contains(q2) && #[trigger] f(q1) == #[trigger] f(q2)
            implies q1 == q2 by {
            if p(q1.0) < p(q1.1) && p(q2.0) < p(q2.1) {
                assert(p(q1.0) == p(q2.0) && p(q1.1) == p(q2.1));
            } else if p(q1.0) < p(q1.1) {
                assert(p(q1.0) == p(q2.1) && p(q1.1) == p(q2.0));
                assert(q1.0 == q2.1 && q1.1 == q2.0);
                assert(q1.0 < q1.1 && q2.0 < q2.1);
            } else if p(q2.0) < p(q2.1) {
                assert(p(q1.1) == p(q2.0) && p(q1.0) == p(q2.1));
                assert(q1.1 == q2.0 && q1.0 == q2.1);
                assert(q1.0 < q1.1 && q2.0 < q2.1);
            } else {
                assert(p(q1.1) == p(q2.1) && p(q1.0) == p(q2.0));
            }
        }
    }
    lemma_map_size(s1, s2, f);
}

/// The relabeling law against a well-formed graph: its membership record
/// is symmetric by invariant, so only the permutation hypotheses remain.
/// The betweenness step stores exactly `pairs_through` for every alive
/// node, so permuted labels yield permuted betweenness values.
pub proof fn lemma_betweenness_relabeling(
    g1: Graph,
    g2: Graph,
    p: spec_fn(int) -> int,
    x: int,
)
    requires
        g1.wf(),
        g1.spec_n() == g2.spec_n(),
        0 <= x < g1.spec_n(),
        forall|i: int| 0 <= i < g1.spec_n() ==> 0 <= #[trigger] p(i) < g1.spec_n(),
        forall|i: int, j: int|
            0 <= i < g1.spec_n() && 0 <= j < g1.spec_n() && i != j
                ==> #[trigger] p(i) != #[trigger] p(j),
        forall|j: int| 0 <= j < g1.spec_n() ==> #[trigger] hits(p, g1.spec_n(), j),
        forall|i: int| 0 <= i < g1.spec_n()
            ==> (g2.tracker.spec_is_alive(#[trigger] p(i)) <==> g1.tracker.spec_is_alive(i)),
        forall|s: int, t: int|
            0 <= s < g1.spec_n() && 0 <= t < g1.spec_n()
                ==> (g2.path_finder.spec_contains(#[trigger] p(s), #[trigger] p(t), p(x))
                    <==> g1.path_finder.spec_contains(s, t, x)),
    ensures
        pairs_through(g2, p(x), g2.spec_n()) == pairs_through(g1, x, g1.spec_n()),
{
    assert forall|s: int, t: int|
        0 <= s < g1.spec_n() && 0 <= t < g1.spec_n()
        implies (g1.path_finder.spec_contains(s, t, x)
            <==> g1.path_finder.spec_contains(t, s, x)) by {
        if s != t {
            assert(g1.path_finder.paths@[x].in_range(s, t));
            assert(g1.path_finder.paths@[x].in_range(t, s));
        }
    }
    lemma_betweenness_permutation(g1, g2, p, x);
}

} // verus!
