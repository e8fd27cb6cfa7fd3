//! The mathematical model of directed paths and their costs.
//!
//! A graph is modelled as a sequence of edges; a path is a sequence of edge
//! indices whose edges chain together. These definitions give the search its
//! specification: the least `path_cost` over all paths between two nodes.

use vstd::prelude::*;

verus! {

/// A directed edge: source node, target node, weight.
pub type Edge = (char, char, u32);

/// `p` lists edge indices into `g` that form a directed path from `s` to `t`:
/// every index is in range, consecutive edges are chained, the first edge
/// leaves `s` and the last edge enters `t`. The empty sequence is the trivial
/// path from a node to itself.
pub open spec fn path_ok(g: Seq<Edge>, p: Seq<int>, s: char, t: char) -> bool {
    &&& forall|k: int| 0 <= k < p.len() ==> 0 <= #[trigger] p[k] < g.len()
    &&& (p.len() == 0 ==> s == t)
    &&& (p.len() > 0 ==> g[p[0]].0 == s && g[p[p.len() - 1]].1 == t)
    &&& forall|k: int| 0 < k < p.len() ==> g[#[trigger] p[k - 1]].1 == g[p[k]].0
}

/// The total weight of the edges a path traverses.
pub open spec fn path_cost(g: Seq<Edge>, p: Seq<int>) -> int
    decreases p.len(),
{
    if p.len() == 0 {
        0
    } else {
        path_cost(g, p.drop_last()) + g[p.last()].2
    }
}

/// Some directed path from `s` to `t` in `g` has total weight `c`.
pub open spec fn reaches(g: Seq<Edge>, s: char, t: char, c: int) -> bool {
    exists|p: Seq<int>| path_ok(g, p, s, t) && path_cost(g, p) == c
}

/// Some directed path leads from `s` to `t` in `g`.
pub open spec fn connected(g: Seq<Edge>, s: char, t: char) -> bool {
    exists|c: int| reaches(g, s, t, c)
}

/// `c` is the least total weight over all directed paths from `s` to `t`.
pub open spec fn is_min_cost(g: Seq<Edge>, s: char, t: char, c: int) -> bool {
    &&& reaches(g, s, t, c)
    &&& forall|c2: int| #[trigger] reaches(g, s, t, c2) ==> c <= c2
}

/// Weights are non-negative, so every path cost is non-negative.
pub proof fn lemma_path_cost_nonneg(g: Seq<Edge>, p: Seq<int>)
    ensures
        path_cost(g, p) >= 0,
    decreases p.len(),
{
    if p.len() > 0 {
        lemma_path_cost_nonneg(g, p.drop_last());
    }
}

/// Every cost at which one node reaches another is non-negative.
pub proof fn lemma_reach_cost_nonneg(g: Seq<Edge>, s: char, t: char, c: int)
    requires
        reaches(g, s, t, c),
    ensures
        c >= 0,
{
    let p = choose|p: Seq<int>| path_ok(g, p, s, t) && path_cost(g, p) == c;
    lemma_path_cost_nonneg(g, p);
}

/// The empty path shows that every node reaches itself at cost zero.
pub proof fn lemma_reaches_self(g: Seq<Edge>, x: char)
    ensures
        reaches(g, x, x, 0),
{
    let p0 = Seq::<int>::empty();
    assert(path_ok(g, p0, x, x));
    assert(path_cost(g, p0) == 0);
}

/// Zero is the least cost from any node to itself, whether or not the node
/// occurs in the graph: the trivial path costs nothing and no path costs less.
pub proof fn lemma_min_cost_reflexive(g: Seq<Edge>, x: char)
    ensures
        is_min_cost(g, x, x, 0),
{
    lemma_reaches_self(g, x);
    assert forall|c2: int| #[trigger] reaches(g, x, x, c2) implies 0 <= c2 by {
        lemma_reach_cost_nonneg(g, x, x, c2);
    }
}

/// The least path cost between two nodes is unique, so any two searches over
/// the same graph and the same query agree on their answer.
pub proof fn lemma_min_cost_unique(g: Seq<Edge>, s: char, t: char, c1: int, c2: int)
    requires
        is_min_cost(g, s, t, c1),
        is_min_cost(g, s, t, c2),
    ensures
        c1 == c2,
{
}

/// Appending edge `j` to a path into `g[j].0` extends the reach to `g[j].1`.
pub proof fn lemma_reaches_step(g: Seq<Edge>, s: char, j: int, c: int)
    requires
        0 <= j < g.len(),
        reaches(g, s, g[j].0, c),
    ensures
        reaches(g, s, g[j].1, c + g[j].2),
{
    let p = choose|p: Seq<int>| path_ok(g, p, s, g[j].0) && path_cost(g, p) == c;
    let p2 = p.push(j);
    assert(p2.drop_last() =~= p);
    assert(p2.last() == j);
    assert forall|k: int| 0 <= k < p2.len() implies 0 <= #[trigger] p2[k] < g.len() by {
        if k < p.len() {
            assert(p2[k] == p[k]);
        }
    }
    assert forall|k: int| 0 < k < p2.len() implies g[#[trigger] p2[k - 1]].1 == g[p2[k]].0 by {
        if k < p.len() {
            assert(p2[k - 1] == p[k - 1] && p2[k] == p[k]);
        } else {
            assert(k == p.len());
            if p.len() > 0 {
                assert(p2[k - 1] == p[p.len() - 1]);
                assert(g[p[p.len() - 1]].1 == g[j].0);
            }
        }
    }
    assert(path_ok(g, p2, s, g[j].1));
    assert(path_cost(g, p2) == c + g[j].2);
}

proof fn lemma_path_cost_pointwise(g1: Seq<Edge>, g2: Seq<Edge>, p1: Seq<int>, p2: Seq<int>)
    requires
        p1.len() == p2.len(),
        forall|k: int| 0 <= k < p1.len() ==> g2[#[trigger] p2[k]] == g1[p1[k]],
    ensures
        path_cost(g2, p2) == path_cost(g1, p1),
    decreases p1.len(),
{
    if p1.len() > 0 {
        assert forall|k: int| 0 <= k < p1.drop_last().len() implies g2[#[trigger] p2.drop_last()[k]]
            == g1[p1.drop_last()[k]] by {
            assert(p2.drop_last()[k] == p2[k] && p1.drop_last()[k] == p1[k]);
        }
        lemma_path_cost_pointwise(g1, g2, p1.drop_last(), p2.drop_last());
        assert(g2[p2.last()] == g1[p1.last()]);
    }
}

proof fn lemma_reorder_preserves_reach(g1: Seq<Edge>, g2: Seq<Edge>, s: char, t: char, c: int)
    requires
        g1.to_multiset() == g2.to_multiset(),
        reaches(g1, s, t, c),
    ensures
        reaches(g2, s, t, c),
{
    broadcast use vstd::seq_lib::group_to_multiset_ensures;

    let p1 = choose|p: Seq<int>| path_ok(g1, p, s, t) && path_cost(g1, p) == c;
    let p2 = Seq::new(
        p1.len(),
        |k: int| choose|j: int| 0 <= j < g2.len() && g2[j] == g1[p1[k]],
    );
    assert forall|k: int| 0 <= k < p1.len() implies 0 <= #[trigger] p2[k] < g2.len() && g2[p2[k]]
        == g1[p1[k]] by {
        assert(g1.contains(g1[p1[k]]));
        assert(g1.to_multiset().count(g1[p1[k]]) > 0);
        assert(g2.to_multiset().count(g1[p1[k]]) > 0);
        assert(g2.contains(g1[p1[k]]));
        let jw = choose|j: int| 0 <= j < g2.len() && g2[j] == g1[p1[k]];
        assert(p2[k] == jw);
    }
    assert forall|k: int| 0 < k < p2.len() implies g2[#[trigger] p2[k - 1]].1 == g2[p2[k]].0 by {
        assert(g1[p1[k - 1]].1 == g1[p1[k]].0);
    }
    if p1.len() > 0 {
        assert(g2[p2[0]].0 == s);
        assert(g2[p2[p2.len() - 1]].1 == t);
    }
    assert(path_ok(g2, p2, s, t));
    lemma_path_cost_pointwise(g1, g2, p1, p2);
}

/// The order in which the edges were inserted is irrelevant: two graphs that
/// hold the same edges with the same multiplicities connect the same node
/// pairs, and at the same least costs, so every search over them agrees.
pub proof fn lemma_insertion_order_irrelevant(g1: Seq<Edge>, g2: Seq<Edge>, s: char, t: char)
    requires
        g1.to_multiset() == g2.to_multiset(),
    ensures
        connected(g1, s, t) == connected(g2, s, t),
        forall|c: int| is_min_cost(g1, s, t, c) == is_min_cost(g2, s, t, c),
{
    assert forall|c: int| #[trigger] reaches(g1, s, t, c) implies reaches(g2, s, t, c) by {
        lemma_reorder_preserves_reach(g1, g2, s, t, c);
    }
    assert forall|c: int| #[trigger] reaches(g2, s, t, c) implies reaches(g1, s, t, c) by {
        lemma_reorder_preserves_reach(g2, g1, s, t, c);
    }
    assert forall|c: int| is_min_cost(g1, s, t, c) == is_min_cost(g2, s, t, c) by {
        if is_min_cost(g1, s, t, c) {
            assert(reaches(g2, s, t, c));
            assert forall|c2: int| #[trigger] reaches(g2, s, t, c2) implies c <= c2 by {
                assert(reaches(g1, s, t, c2));
            }
        }
        if is_min_cost(g2, s, t, c) {
            assert(reaches(g1, s, t, c));
            assert forall|c2: int| #[trigger] reaches(g1, s, t, c2) implies c <= c2 by {
                assert(reaches(g2, s, t, c2));
            }
        }
    }
    if connected(g1, s, t) {
        let c = choose|c: int| reaches(g1, s, t, c);
        assert(reaches(g2, s, t, c));
    }
    if connected(g2, s, t) {
        let c = choose|c: int| reaches(g2, s, t, c);
        assert(reaches(g1, s, t, c));
    }
}

} // verus!
