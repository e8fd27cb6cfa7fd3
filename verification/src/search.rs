//! The uniform-cost search engine.
//!
//! The search keeps a frontier of `(node, accumulated cost)` entries and a
//! best-known-cost table, repeatedly extracting a cheapest entry. The proof
//! tracks, in ghost state, the set of settled nodes — nodes already extracted
//! at their least cost — together with that least cost for each.

use crate::graph::Graph;
use crate::paths::{
    connected, is_min_cost, lemma_min_cost_reflexive, lemma_min_cost_unique, lemma_reaches_self,
    lemma_reaches_step, path_cost, path_ok, reaches, Edge,
};
use vstd::prelude::*;
use vstd::set_lib::lemma_len_subset;

verus! {

/// The largest edge weight in the graph, zero when there are no edges.
spec fn max_weight(g: Seq<Edge>) -> int
    decreases g.len(),
{
    if g.len() == 0 {
        0
    } else if g.last().2 as int > max_weight(g.drop_last()) {
        g.last().2 as int
    } else {
        max_weight(g.drop_last())
    }
}

proof fn lemma_max_weight_bounds(g: Seq<Edge>)
    ensures
        0 <= max_weight(g) <= u32::MAX as int,
        forall|j: int| 0 <= j < g.len() ==> (#[trigger] g[j]).2 as int <= max_weight(g),
    decreases g.len(),
{
    if g.len() > 0 {
        lemma_max_weight_bounds(g.drop_last());
        assert forall|j: int| 0 <= j < g.len() implies (#[trigger] g[j]).2 as int <= max_weight(g) by {
            if j < g.len() - 1 {
                assert(g.drop_last()[j] == g[j]);
            }
        }
    }
}

/// Every node the search can ever place on the frontier: the edge targets
/// and the start node itself.
spec fn node_pool(g: Seq<Edge>, start: char) -> Set<char> {
    g.map_values(|e: Edge| e.1).to_set().insert(start)
}

proof fn lemma_node_pool_card(g: Seq<Edge>, start: char)
    ensures
        node_pool(g, start).finite(),
        node_pool(g, start).len() <= g.len() + 1,
{
    broadcast use vstd::seq_lib::seq_to_set_is_finite;
    broadcast use vstd::set::axiom_set_insert_len;

    let targets = g.map_values(|e: Edge| e.1);
    targets.lemma_cardinality_of_set();
}

proof fn lemma_target_in_pool(g: Seq<Edge>, start: char, j: int)
    requires
        0 <= j < g.len(),
    ensures
        node_pool(g, start).contains(g[j].1),
{
    let targets = g.map_values(|e: Edge| e.1);
    assert(targets[j] == g[j].1);
    assert(targets.contains(g[j].1));
}

// ---------------------------------------------------------------------------
// The loop invariants, over the frontier `fr`, the best-known-cost table
// `tbl`, the ghost settled set and the ghost map `sd` of settled costs.
// ---------------------------------------------------------------------------

/// Some row of `tbl` holds `v` at a cost of at most `b`.
spec fn table_at_most(tbl: Seq<(char, u128)>, v: char, b: int) -> bool {
    exists|k: int| 0 <= k < tbl.len() && (#[trigger] tbl[k]).0 == v && tbl[k].1 as int <= b
}

/// Some row of `tbl` holds `v` at exactly the cost `c`.
spec fn table_exact(tbl: Seq<(char, u128)>, v: char, c: u128) -> bool {
    exists|k: int| 0 <= k < tbl.len() && (#[trigger] tbl[k]).0 == v && tbl[k].1 == c
}

/// Some frontier entry holds `v` at a cost of at most `b`.
spec fn frontier_at_most(fr: Seq<(char, u128)>, v: char, b: int) -> bool {
    exists|i: int| 0 <= i < fr.len() && (#[trigger] fr[i]).0 == v && fr[i].1 as int <= b
}

/// Every frontier cost is realized by some path from the start.
spec fn inv_frontier_real(g: Seq<Edge>, start: char, fr: Seq<(char, u128)>) -> bool {
    forall|i: int| 0 <= i < fr.len() ==> reaches(g, start, (#[trigger] fr[i]).0, fr[i].1 as int)
}

/// Every table cost is realized by some path from the start.
spec fn inv_table_real(g: Seq<Edge>, start: char, tbl: Seq<(char, u128)>) -> bool {
    forall|k: int| 0 <= k < tbl.len() ==> reaches(g, start, (#[trigger] tbl[k]).0, tbl[k].1 as int)
}

/// Frontier costs stay below a bound that grows only when a node settles.
spec fn inv_frontier_bounded(g: Seq<Edge>, fr: Seq<(char, u128)>, settled: Set<char>) -> bool {
    forall|i: int| 0 <= i < fr.len() ==> (#[trigger] fr[i]).1 as int <= (settled.len() + 1)
        * max_weight(g)
}

/// The table never holds the same node twice.
spec fn inv_table_unique(tbl: Seq<(char, u128)>) -> bool {
    forall|k1: int, k2: int|
        0 <= k1 < k2 < tbl.len() ==> (#[trigger] tbl[k1]).0 != (#[trigger] tbl[k2]).0
}

/// Every frontier node has a table row, at a cost no greater than the entry's.
spec fn inv_frontier_in_table(fr: Seq<(char, u128)>, tbl: Seq<(char, u128)>) -> bool {
    forall|i: int|
        0 <= i < fr.len() ==> table_at_most(tbl, (#[trigger] fr[i]).0, fr[i].1 as int)
}

/// Every table row is backed: its node is settled, or a frontier entry at or
/// below the recorded cost is still waiting to be extracted.
spec fn inv_table_backed(
    fr: Seq<(char, u128)>,
    tbl: Seq<(char, u128)>,
    settled: Set<char>,
) -> bool {
    forall|k: int|
        0 <= k < tbl.len() ==> settled.contains((#[trigger] tbl[k]).0) || frontier_at_most(
            fr,
            tbl[k].0,
            tbl[k].1 as int,
        )
}

/// Settled nodes carry their true least cost from the start.
spec fn inv_settled_min(
    g: Seq<Edge>,
    start: char,
    settled: Set<char>,
    sd: Map<char, u128>,
) -> bool {
    forall|v: char| #[trigger]
        settled.contains(v) ==> sd.dom().contains(v) && is_min_cost(g, start, v, sd[v] as int)
}

/// Settled costs are bounded by how many nodes have settled.
spec fn inv_settled_bounded(g: Seq<Edge>, settled: Set<char>, sd: Map<char, u128>) -> bool {
    forall|v: char| #[trigger]
        settled.contains(v) ==> sd[v] as int <= settled.len() * max_weight(g)
}

/// A settled node's table row records exactly its settled cost.
spec fn inv_settled_table(tbl: Seq<(char, u128)>, settled: Set<char>, sd: Map<char, u128>) -> bool {
    forall|v: char| #[trigger] settled.contains(v) ==> table_exact(tbl, v, sd[v])
}

/// Edge `j` out of a settled node has been relaxed: its target holds a
/// frontier entry no dearer than settled cost plus weight, or is itself
/// settled at no dearer a cost.
spec fn edge_relaxed(
    g: Seq<Edge>,
    fr: Seq<(char, u128)>,
    settled: Set<char>,
    sd: Map<char, u128>,
    j: int,
) -> bool {
    ||| frontier_at_most(fr, g[j].1, sd[g[j].0] as int + g[j].2)
    ||| (settled.contains(g[j].1) && sd[g[j].1] as int <= sd[g[j].0] as int + g[j].2)
}

/// All edges out of settled nodes have been relaxed.
spec fn inv_relaxed(
    g: Seq<Edge>,
    fr: Seq<(char, u128)>,
    settled: Set<char>,
    sd: Map<char, u128>,
) -> bool {
    forall|j: int|
        0 <= j < g.len() && settled.contains((#[trigger] g[j]).0) ==> edge_relaxed(
            g,
            fr,
            settled,
            sd,
            j,
        )
}

/// The start is settled, or still waits on the frontier at cost zero.
spec fn inv_start_avail(fr: Seq<(char, u128)>, settled: Set<char>, start: char) -> bool {
    settled.contains(start) || frontier_at_most(fr, start, 0)
}

/// Settled nodes and frontier nodes come from the node pool.
spec fn inv_in_pool(
    g: Seq<Edge>,
    start: char,
    fr: Seq<(char, u128)>,
    settled: Set<char>,
) -> bool {
    &&& settled.finite()
    &&& settled.subset_of(node_pool(g, start))
    &&& forall|i: int| 0 <= i < fr.len() ==> node_pool(g, start).contains((#[trigger] fr[i]).0)
}

/// The invariants that do not mention relaxation, bundled.
spec fn core_inv(
    g: Seq<Edge>,
    start: char,
    goal: char,
    fr: Seq<(char, u128)>,
    tbl: Seq<(char, u128)>,
    settled: Set<char>,
    sd: Map<char, u128>,
) -> bool {
    &&& inv_frontier_real(g, start, fr)
    &&& inv_table_real(g, start, tbl)
    &&& inv_frontier_bounded(g, fr, settled)
    &&& inv_table_unique(tbl)
    &&& inv_frontier_in_table(fr, tbl)
    &&& inv_table_backed(fr, tbl, settled)
    &&& inv_settled_min(g, start, settled, sd)
    &&& inv_settled_bounded(g, settled, sd)
    &&& inv_settled_table(tbl, settled, sd)
    &&& inv_start_avail(fr, settled, start)
    &&& inv_in_pool(g, start, fr, settled)
    &&& !settled.contains(goal)
}

/// Everything the search loop maintains.
spec fn search_inv(
    g: Seq<Edge>,
    start: char,
    goal: char,
    fr: Seq<(char, u128)>,
    tbl: Seq<(char, u128)>,
    settled: Set<char>,
    sd: Map<char, u128>,
) -> bool {
    &&& core_inv(g, start, goal, fr, tbl, settled, sd)
    &&& inv_relaxed(g, fr, settled, sd)
}

// ---------------------------------------------------------------------------
// Small transfer lemmas.
// ---------------------------------------------------------------------------

proof fn lemma_frontier_at_most_weaken(fr: Seq<(char, u128)>, v: char, b1: int, b2: int)
    requires
        frontier_at_most(fr, v, b1),
        b1 <= b2,
    ensures
        frontier_at_most(fr, v, b2),
{
    let i = choose|i: int| 0 <= i < fr.len() && (#[trigger] fr[i]).0 == v && fr[i].1 as int <= b1;
    assert(0 <= i < fr.len() && fr[i].0 == v && fr[i].1 as int <= b2);
}

proof fn lemma_frontier_at_most_push(fr: Seq<(char, u128)>, x: (char, u128), v: char, b: int)
    requires
        frontier_at_most(fr, v, b),
    ensures
        frontier_at_most(fr.push(x), v, b),
{
    let i = choose|i: int| 0 <= i < fr.len() && (#[trigger] fr[i]).0 == v && fr[i].1 as int <= b;
    assert(fr.push(x)[i] == fr[i]);
}

proof fn lemma_table_at_most_push(tbl: Seq<(char, u128)>, x: (char, u128), v: char, b: int)
    requires
        table_at_most(tbl, v, b),
    ensures
        table_at_most(tbl.push(x), v, b),
{
    let k = choose|k: int| 0 <= k < tbl.len() && (#[trigger] tbl[k]).0 == v && tbl[k].1 as int <= b;
    assert(tbl.push(x)[k] == tbl[k]);
}

proof fn lemma_table_exact_push(tbl: Seq<(char, u128)>, x: (char, u128), v: char, c: u128)
    requires
        table_exact(tbl, v, c),
    ensures
        table_exact(tbl.push(x), v, c),
{
    let k = choose|k: int| 0 <= k < tbl.len() && (#[trigger] tbl[k]).0 == v && tbl[k].1 == c;
    assert(tbl.push(x)[k] == tbl[k]);
}

/// An entry at any other position survives removing position `mi`.
proof fn lemma_entry_survives(fr: Seq<(char, u128)>, mi: int, i: int)
    requires
        0 <= mi < fr.len(),
        0 <= i < fr.len(),
        i != mi,
    ensures
        exists|i2: int| 0 <= i2 < fr.remove(mi).len() && #[trigger] fr.remove(mi)[i2] == fr[i],
{
    fr.remove_ensures(mi);
    if i < mi {
        assert(fr.remove(mi)[i] == fr[i]);
    } else {
        assert(fr.remove(mi)[i - 1] == fr[i]);
    }
}

proof fn lemma_frontier_at_most_remove(fr: Seq<(char, u128)>, mi: int, v: char, b: int)
    requires
        0 <= mi < fr.len(),
        frontier_at_most(fr, v, b),
        !(fr[mi].0 == v && fr[mi].1 as int <= b),
    ensures
        frontier_at_most(fr.remove(mi), v, b),
{
    let i = choose|i: int| 0 <= i < fr.len() && (#[trigger] fr[i]).0 == v && fr[i].1 as int <= b;
    assert(i != mi);
    lemma_entry_survives(fr, mi, i);
    let i2 = choose|i2: int| 0 <= i2 < fr.remove(mi).len() && #[trigger] fr.remove(mi)[i2] == fr[i];
    assert(0 <= i2 < fr.remove(mi).len() && fr.remove(mi)[i2].0 == v && fr.remove(mi)[i2].1 as int
        <= b);
}

/// A relaxed edge stays relaxed when the frontier only grows.
proof fn lemma_relaxed_push(
    g: Seq<Edge>,
    fr: Seq<(char, u128)>,
    settled: Set<char>,
    sd: Map<char, u128>,
    j: int,
    x: (char, u128),
)
    requires
        edge_relaxed(g, fr, settled, sd, j),
    ensures
        edge_relaxed(g, fr.push(x), settled, sd, j),
{
    if frontier_at_most(fr, g[j].1, sd[g[j].0] as int + g[j].2) {
        lemma_frontier_at_most_push(fr, x, g[j].1, sd[g[j].0] as int + g[j].2);
    }
}

// ---------------------------------------------------------------------------
// The optimality argument.
// ---------------------------------------------------------------------------

/// While a node is unsettled, every path from the start to it is matched by
/// some frontier entry that costs no more — so extracting a cheapest entry
/// extracts a node at its true least cost.
proof fn lemma_frontier_bounds_paths(
    g: Seq<Edge>,
    start: char,
    fr: Seq<(char, u128)>,
    settled: Set<char>,
    sd: Map<char, u128>,
    p: Seq<int>,
    z: char,
)
    requires
        inv_settled_min(g, start, settled, sd),
        inv_relaxed(g, fr, settled, sd),
        inv_start_avail(fr, settled, start),
        path_ok(g, p, start, z),
        !settled.contains(z),
    ensures
        exists|i: int| 0 <= i < fr.len() && (#[trigger] fr[i]).1 as int <= path_cost(g, p),
    decreases p.len(),
{
    if p.len() == 0 {
        assert(z == start);
        let i = choose|i: int|
            0 <= i < fr.len() && (#[trigger] fr[i]).0 == start && fr[i].1 as int <= 0;
        assert(fr[i].1 as int <= path_cost(g, p));
    } else {
        let j = p.last();
        let x = g[j].0;
        let p0 = p.drop_last();
        assert forall|k: int| 0 < k < p0.len() implies g[#[trigger] p0[k - 1]].1 == g[p0[k]].0 by {
            assert(p0[k - 1] == p[k - 1] && p0[k] == p[k]);
        }
        if p0.len() > 0 {
            assert(p0[0] == p[0]);
            assert(p0[p0.len() - 1] == p[p.len() - 2]);
            assert(g[p[p.len() - 2]].1 == g[p[p.len() - 1]].0);
        }
        assert(path_ok(g, p0, start, x));
        assert(path_cost(g, p) == path_cost(g, p0) + g[j].2);
        if settled.contains(x) {
            assert(reaches(g, start, x, path_cost(g, p0)));
            assert(sd[x] as int <= path_cost(g, p0));
            assert(edge_relaxed(g, fr, settled, sd, j));
            assert(g[j].1 == z && !settled.contains(z));
            let i = choose|i: int|
                0 <= i < fr.len() && (#[trigger] fr[i]).0 == g[j].1 && fr[i].1 as int
                    <= sd[g[j].0] as int + g[j].2;
            assert(fr[i].1 as int <= path_cost(g, p));
        } else {
            lemma_frontier_bounds_paths(g, start, fr, settled, sd, p0, x);
            let i = choose|i: int|
                0 <= i < fr.len() && (#[trigger] fr[i]).1 as int <= path_cost(g, p0);
            assert(fr[i].1 as int <= path_cost(g, p));
        }
    }
}

/// A cheapest entry on an unsettled node carries that node's least cost.
proof fn lemma_pop_is_min(
    g: Seq<Edge>,
    start: char,
    fr0: Seq<(char, u128)>,
    settled: Set<char>,
    sd: Map<char, u128>,
    mi: int,
)
    requires
        inv_frontier_real(g, start, fr0),
        inv_settled_min(g, start, settled, sd),
        inv_relaxed(g, fr0, settled, sd),
        inv_start_avail(fr0, settled, start),
        0 <= mi < fr0.len(),
        forall|i: int| 0 <= i < fr0.len() ==> fr0[mi].1 <= (#[trigger] fr0[i]).1,
        !settled.contains(fr0[mi].0),
    ensures
        is_min_cost(g, start, fr0[mi].0, fr0[mi].1 as int),
{
    let name = fr0[mi].0;
    let cost = fr0[mi].1;
    assert(reaches(g, start, name, cost as int));
    assert forall|c2: int| #[trigger] reaches(g, start, name, c2) implies cost as int <= c2 by {
        let p = choose|p: Seq<int>| path_ok(g, p, start, name) && path_cost(g, p) == c2;
        lemma_frontier_bounds_paths(g, start, fr0, settled, sd, p, name);
        let i = choose|i: int| 0 <= i < fr0.len() && (#[trigger] fr0[i]).1 as int <= path_cost(g, p);
        assert(fr0[mi].1 <= fr0[i].1);
    }
}

// ---------------------------------------------------------------------------
// Invariant preservation, step by step.
// ---------------------------------------------------------------------------

/// A settled node's unique table row records its settled cost.
proof fn lemma_settled_row(
    tbl: Seq<(char, u128)>,
    settled: Set<char>,
    sd: Map<char, u128>,
    v: char,
    k: int,
)
    requires
        inv_settled_table(tbl, settled, sd),
        inv_table_unique(tbl),
        settled.contains(v),
        0 <= k < tbl.len(),
        tbl[k].0 == v,
    ensures
        tbl[k].1 == sd[v],
{
    assert(table_exact(tbl, v, sd[v]));
    let kv = choose|kv: int| 0 <= kv < tbl.len() && (#[trigger] tbl[kv]).0 == v && tbl[kv].1
        == sd[v];
    if kv != k {
        assert(tbl[kv].0 != tbl[k].0);
        assert(false);
    }
}

/// Inserting the popped node re-establishes the settled-node invariants.
proof fn lemma_settle_state(
    g: Seq<Edge>,
    start: char,
    tbl: Seq<(char, u128)>,
    settled: Set<char>,
    sd: Map<char, u128>,
    settled2: Set<char>,
    sd2: Map<char, u128>,
    name: char,
    cost: u128,
    k: int,
)
    requires
        inv_settled_min(g, start, settled, sd),
        inv_settled_bounded(g, settled, sd),
        inv_settled_table(tbl, settled, sd),
        settled.finite(),
        settled2 == settled.insert(name),
        sd2 == sd.insert(name, cost),
        is_min_cost(g, start, name, cost as int),
        0 <= k < tbl.len(),
        tbl[k].0 == name,
        tbl[k].1 == cost,
        cost as int <= (settled.len() + 1) * max_weight(g),
        settled.contains(name) ==> sd[name] == cost,
    ensures
        inv_settled_min(g, start, settled2, sd2),
        inv_settled_bounded(g, settled2, sd2),
        inv_settled_table(tbl, settled2, sd2),
        settled2.finite(),
        settled2.len() == settled.len() + (if settled.contains(name) {
            0int
        } else {
            1int
        }),
{
    broadcast use vstd::set::axiom_set_insert_len;

    lemma_max_weight_bounds(g);
    let mw = max_weight(g);
    let n1 = settled.len() as int;
    let n2 = settled2.len() as int;
    assert(n1 * mw <= n2 * mw) by (nonlinear_arith)
        requires
            n1 <= n2,
            0 <= mw,
    ;
    assert forall|v: char| #[trigger] settled2.contains(v) implies sd2.dom().contains(v)
        && is_min_cost(g, start, v, sd2[v] as int) && sd2[v] as int <= settled2.len() * max_weight(
        g,
    ) by {
        if v == name {
            assert(sd2[name] == cost);
            if settled.contains(name) {
                assert(cost as int <= n1 * mw);
            } else {
                assert(n2 == n1 + 1);
            }
        } else {
            assert(settled.contains(v));
            assert(sd2[v] == sd[v]);
            assert(sd[v] as int <= n1 * mw);
        }
    }
    assert forall|v: char| #[trigger] settled2.contains(v) implies table_exact(tbl, v, sd2[v]) by {
        if v == name {
            assert(tbl[k].0 == name && tbl[k].1 == sd2[name]);
        } else {
            assert(settled.contains(v));
            assert(table_exact(tbl, v, sd[v]));
            assert(sd2[v] == sd[v]);
        }
    }
}

/// The frontier's per-entry facts survive removing one entry.
proof fn lemma_remove_universals(
    g: Seq<Edge>,
    start: char,
    fr0: Seq<(char, u128)>,
    tbl: Seq<(char, u128)>,
    mi: int,
    b: int,
)
    requires
        0 <= mi < fr0.len(),
        inv_frontier_real(g, start, fr0),
        inv_frontier_in_table(fr0, tbl),
        forall|i: int| 0 <= i < fr0.len() ==> (#[trigger] fr0[i]).1 as int <= b,
        forall|i: int| 0 <= i < fr0.len() ==> node_pool(g, start).contains((#[trigger] fr0[i]).0),
    ensures
        inv_frontier_real(g, start, fr0.remove(mi)),
        inv_frontier_in_table(fr0.remove(mi), tbl),
        forall|i: int| 0 <= i < fr0.remove(mi).len() ==> (#[trigger] fr0.remove(mi)[i]).1 as int
            <= b,
        forall|i: int|
            0 <= i < fr0.remove(mi).len() ==> node_pool(g, start).contains(
                (#[trigger] fr0.remove(mi)[i]).0,
            ),
{
    fr0.remove_ensures(mi);
    let fr1 = fr0.remove(mi);
    assert forall|i: int| 0 <= i < fr1.len() implies reaches(
        g,
        start,
        (#[trigger] fr1[i]).0,
        fr1[i].1 as int,
    ) && fr1[i].1 as int <= b && node_pool(g, start).contains(fr1[i].0) && table_at_most(
        tbl,
        fr1[i].0,
        fr1[i].1 as int,
    ) by {
        if i < mi {
            assert(fr1[i] == fr0[i]);
        } else {
            assert(fr1[i] == fr0[i + 1]);
        }
    }
}

/// Table rows stay backed after removing an entry whose node is settled.
proof fn lemma_remove_table_backed(
    fr0: Seq<(char, u128)>,
    tbl: Seq<(char, u128)>,
    settled: Set<char>,
    settled2: Set<char>,
    mi: int,
)
    requires
        inv_table_backed(fr0, tbl, settled),
        0 <= mi < fr0.len(),
        forall|v: char| #[trigger] settled.contains(v) ==> settled2.contains(v),
        settled2.contains(fr0[mi].0),
    ensures
        inv_table_backed(fr0.remove(mi), tbl, settled2),
{
    fr0.remove_ensures(mi);
    let fr1 = fr0.remove(mi);
    assert forall|k2: int| 0 <= k2 < tbl.len() implies settled2.contains((#[trigger] tbl[k2]).0)
        || frontier_at_most(fr1, tbl[k2].0, tbl[k2].1 as int) by {
        if !settled2.contains(tbl[k2].0) {
            assert(!settled.contains(tbl[k2].0));
            assert(frontier_at_most(fr0, tbl[k2].0, tbl[k2].1 as int));
            assert(fr0[mi].0 != tbl[k2].0);
            lemma_frontier_at_most_remove(fr0, mi, tbl[k2].0, tbl[k2].1 as int);
        }
    }
}

/// One relaxed edge stays relaxed across the removal and the settling.
proof fn lemma_remove_relaxed_edge(
    g: Seq<Edge>,
    fr0: Seq<(char, u128)>,
    settled: Set<char>,
    sd: Map<char, u128>,
    settled2: Set<char>,
    sd2: Map<char, u128>,
    mi: int,
    j: int,
)
    requires
        0 <= mi < fr0.len(),
        0 <= j < g.len(),
        edge_relaxed(g, fr0, settled, sd, j),
        sd2[g[j].0] == sd[g[j].0],
        settled.contains(g[j].1) ==> settled2.contains(g[j].1) && sd2[g[j].1] == sd[g[j].1],
        settled2.contains(fr0[mi].0),
        sd2[fr0[mi].0] as int <= fr0[mi].1 as int,
    ensures
        edge_relaxed(g, fr0.remove(mi), settled2, sd2, j),
{
    fr0.remove_ensures(mi);
    let fr1 = fr0.remove(mi);
    let b = sd[g[j].0] as int + g[j].2;
    if frontier_at_most(fr0, g[j].1, b) {
        let i = choose|i: int|
            0 <= i < fr0.len() && (#[trigger] fr0[i]).0 == g[j].1 && fr0[i].1 as int <= b;
        if i == mi {
            assert(g[j].1 == fr0[mi].0);
            assert(settled2.contains(g[j].1) && sd2[g[j].1] as int <= sd2[g[j].0] as int
                + g[j].2);
        } else {
            lemma_entry_survives(fr0, mi, i);
            let i2 = choose|i2: int| 0 <= i2 < fr1.len() && #[trigger] fr1[i2] == fr0[i];
            assert(0 <= i2 < fr1.len() && fr1[i2].0 == g[j].1 && fr1[i2].1 as int <= b);
            assert(frontier_at_most(fr1, g[j].1, sd2[g[j].0] as int + g[j].2));
        }
    } else {
        assert(settled2.contains(g[j].1) && sd2[g[j].1] as int <= sd2[g[j].0] as int + g[j].2);
    }
}

/// The start stays available after the removal and the settling.
proof fn lemma_remove_start_avail(
    fr0: Seq<(char, u128)>,
    settled: Set<char>,
    settled2: Set<char>,
    start: char,
    mi: int,
)
    requires
        inv_start_avail(fr0, settled, start),
        0 <= mi < fr0.len(),
        forall|v: char| #[trigger] settled.contains(v) ==> settled2.contains(v),
        settled2.contains(fr0[mi].0),
    ensures
        inv_start_avail(fr0.remove(mi), settled2, start),
{
    if !settled2.contains(start) {
        assert(!settled.contains(start));
        assert(frontier_at_most(fr0, start, 0));
        assert(fr0[mi].0 != start);
        lemma_frontier_at_most_remove(fr0, mi, start, 0);
    }
}

/// A cheapest entry whose table row is already cheaper is stale: its node
/// settled earlier, and dropping the entry disturbs no invariant.
proof fn lemma_stale_pop(
    g: Seq<Edge>,
    start: char,
    goal: char,
    fr0: Seq<(char, u128)>,
    tbl: Seq<(char, u128)>,
    settled: Set<char>,
    sd: Map<char, u128>,
    mi: int,
    k: int,
)
    requires
        search_inv(g, start, goal, fr0, tbl, settled, sd),
        0 <= mi < fr0.len(),
        forall|i: int| 0 <= i < fr0.len() ==> fr0[mi].1 <= (#[trigger] fr0[i]).1,
        0 <= k < tbl.len(),
        tbl[k].0 == fr0[mi].0,
        tbl[k].1 < fr0[mi].1,
    ensures
        settled.contains(fr0[mi].0),
        search_inv(g, start, goal, fr0.remove(mi), tbl, settled, sd),
{
    fr0.remove_ensures(mi);
    let name = fr0[mi].0;
    let cost = fr0[mi].1;
    let fr1 = fr0.remove(mi);
    if !settled.contains(name) {
        assert(frontier_at_most(fr0, tbl[k].0, tbl[k].1 as int));
        let i = choose|i: int|
            0 <= i < fr0.len() && (#[trigger] fr0[i]).0 == tbl[k].0 && fr0[i].1 as int
                <= tbl[k].1 as int;
        assert(fr0[mi].1 <= fr0[i].1);
        assert(false);
    }
    assert(reaches(g, start, name, cost as int));
    assert(sd[name] as int <= cost as int);
    lemma_remove_universals(g, start, fr0, tbl, mi, (settled.len() + 1) * max_weight(g));
    assert forall|v: char| #[trigger] settled.contains(v) implies settled.contains(v) by {}
    lemma_remove_table_backed(fr0, tbl, settled, settled, mi);
    assert forall|j: int| 0 <= j < g.len() && settled.contains((#[trigger] g[j]).0)
        implies edge_relaxed(g, fr1, settled, sd, j) by {
        assert(edge_relaxed(g, fr0, settled, sd, j));
        lemma_remove_relaxed_edge(g, fr0, settled, sd, settled, sd, mi, j);
    }
    lemma_remove_start_avail(fr0, settled, settled, start, mi);
}

/// Extracting a cheapest, non-stale entry settles its node at its true least
/// cost, and every invariant except relaxation of the new node's own edges is
/// re-established on the shrunken frontier.
proof fn lemma_settle_pop(
    g: Seq<Edge>,
    start: char,
    goal: char,
    fr0: Seq<(char, u128)>,
    tbl: Seq<(char, u128)>,
    settled: Set<char>,
    sd: Map<char, u128>,
    mi: int,
    k: int,
    settled2: Set<char>,
    sd2: Map<char, u128>,
)
    requires
        search_inv(g, start, goal, fr0, tbl, settled, sd),
        0 <= mi < fr0.len(),
        forall|i: int| 0 <= i < fr0.len() ==> fr0[mi].1 <= (#[trigger] fr0[i]).1,
        0 <= k < tbl.len(),
        tbl[k].0 == fr0[mi].0,
        tbl[k].1 == fr0[mi].1,
        fr0[mi].0 != goal,
        settled2 == settled.insert(fr0[mi].0),
        sd2 == sd.insert(fr0[mi].0, fr0[mi].1),
    ensures
        is_min_cost(g, start, fr0[mi].0, fr0[mi].1 as int),
        settled.contains(fr0[mi].0) ==> settled2 == settled && sd2 == sd,
        settled2.len() == settled.len() + (if settled.contains(fr0[mi].0) {
            0int
        } else {
            1int
        }),
        sd2.dom().contains(fr0[mi].0),
        sd2[fr0[mi].0] == fr0[mi].1,
        core_inv(g, start, goal, fr0.remove(mi), tbl, settled2, sd2),
        forall|j: int|
            0 <= j < g.len() && settled2.contains((#[trigger] g[j]).0) && (g[j].0 != fr0[mi].0
                || settled.contains(fr0[mi].0)) ==> edge_relaxed(
                g,
                fr0.remove(mi),
                settled2,
                sd2,
                j,
            ),
{
    fr0.remove_ensures(mi);
    lemma_max_weight_bounds(g);
    let name = fr0[mi].0;
    let cost = fr0[mi].1;
    let fr1 = fr0.remove(mi);
    let mw = max_weight(g);
    let n1 = settled.len() as int;
    if settled.contains(name) {
        lemma_settled_row(tbl, settled, sd, name, k);
        assert(sd[name] == cost);
        assert(is_min_cost(g, start, name, cost as int));
        assert(settled2 =~= settled);
        assert(sd2 =~= sd);
    } else {
        lemma_pop_is_min(g, start, fr0, settled, sd, mi);
    }
    assert(cost as int <= (n1 + 1) * mw);
    lemma_settle_state(g, start, tbl, settled, sd, settled2, sd2, name, cost, k);
    let n2 = settled2.len() as int;
    assert((n1 + 1) * mw <= (n2 + 1) * mw) by (nonlinear_arith)
        requires
            n1 <= n2,
            0 <= mw,
    ;
    lemma_remove_universals(g, start, fr0, tbl, mi, (n1 + 1) * mw);
    assert(inv_frontier_bounded(g, fr1, settled2));
    assert forall|v: char| #[trigger] settled.contains(v) implies settled2.contains(v) by {}
    lemma_remove_table_backed(fr0, tbl, settled, settled2, mi);
    assert forall|j: int|
        0 <= j < g.len() && settled2.contains((#[trigger] g[j]).0) && (g[j].0 != name
            || settled.contains(name)) implies edge_relaxed(g, fr1, settled2, sd2, j) by {
        assert(settled.contains(g[j].0));
        assert(sd2[g[j].0] == sd[g[j].0]);
        assert(edge_relaxed(g, fr0, settled, sd, j));
        lemma_remove_relaxed_edge(g, fr0, settled, sd, settled2, sd2, mi, j);
    }
    lemma_remove_start_avail(fr0, settled, settled2, start, mi);
    assert(node_pool(g, start).contains(name));
    assert(settled2.subset_of(node_pool(g, start)));
}

// ---------------------------------------------------------------------------
// Relaxation steps.
// ---------------------------------------------------------------------------

/// Accumulated costs stay far below the width of their carrier.
proof fn lemma_cost_fits(g: Seq<Edge>, start: char, settled: Set<char>, c: int, w: int, n: int)
    requires
        0 <= c,
        c <= settled.len() * max_weight(g),
        settled.finite(),
        settled.subset_of(node_pool(g, start)),
        0 <= w <= u32::MAX as int,
        g.len() <= n,
        n <= usize::MAX as int,
    ensures
        c + w <= u128::MAX as int,
{
    lemma_node_pool_card(g, start);
    lemma_len_subset(settled, node_pool(g, start));
    lemma_max_weight_bounds(g);
    let mw = max_weight(g);
    let s = settled.len() as int;
    assert(s <= n + 1);
    assert(s * mw <= (n + 1) * mw) by (nonlinear_arith)
        requires
            s <= n + 1,
            0 <= mw,
    ;
    assert((n + 1) * mw <= (n + 1) * (u32::MAX as int)) by (nonlinear_arith)
        requires
            0 <= n + 1,
            mw <= u32::MAX as int,
    ;
    assert(usize::MAX as int <= u64::MAX as int);
    assert((n + 1) * (u32::MAX as int) <= 0x10000000000000000 * 0xffffffff) by (nonlinear_arith)
        requires
            n + 1 <= 0x10000000000000000,
    ;
}

/// Out of a settled node, the relaxation target's recorded cost tells all:
/// every already-relaxed edge leaves a table row at or below its bound.
proof fn lemma_relaxed_gives_row(
    g: Seq<Edge>,
    fr: Seq<(char, u128)>,
    tbl: Seq<(char, u128)>,
    settled: Set<char>,
    sd: Map<char, u128>,
    j: int,
)
    requires
        inv_frontier_in_table(fr, tbl),
        inv_settled_table(tbl, settled, sd),
        0 <= j < g.len(),
        edge_relaxed(g, fr, settled, sd, j),
    ensures
        table_at_most(tbl, g[j].1, sd[g[j].0] as int + g[j].2),
{
    let b = sd[g[j].0] as int + g[j].2;
    if frontier_at_most(fr, g[j].1, b) {
        let i = choose|i: int|
            0 <= i < fr.len() && (#[trigger] fr[i]).0 == g[j].1 && fr[i].1 as int <= b;
        assert(table_at_most(tbl, fr[i].0, fr[i].1 as int));
        let kw = choose|k: int|
            0 <= k < tbl.len() && (#[trigger] tbl[k]).0 == fr[i].0 && tbl[k].1 as int
                <= fr[i].1 as int;
        assert(0 <= kw < tbl.len() && tbl[kw].0 == g[j].1 && tbl[kw].1 as int <= b);
    } else {
        assert(table_exact(tbl, g[j].1, sd[g[j].1]));
        let kw = choose|k: int|
            0 <= k < tbl.len() && (#[trigger] tbl[k]).0 == g[j].1 && tbl[k].1 == sd[g[j].1];
        assert(0 <= kw < tbl.len() && tbl[kw].0 == g[j].1 && tbl[kw].1 as int <= b);
    }
}

/// Pushing a newly discovered node onto the frontier and the table preserves
/// every invariant and relaxes the edge that discovered it.
proof fn lemma_push_fresh(
    g: Seq<Edge>,
    start: char,
    goal: char,
    fr: Seq<(char, u128)>,
    tbl: Seq<(char, u128)>,
    settled: Set<char>,
    sd: Map<char, u128>,
    name: char,
    j: int,
    nc: u128,
)
    requires
        core_inv(g, start, goal, fr, tbl, settled, sd),
        settled.contains(name),
        sd.dom().contains(name),
        0 <= j < g.len(),
        g[j].0 == name,
        nc as int == sd[name] as int + g[j].2 as int,
        forall|k: int| 0 <= k < tbl.len() ==> (#[trigger] tbl[k]).0 != g[j].1,
    ensures
        core_inv(g, start, goal, fr.push((g[j].1, nc)), tbl.push((g[j].1, nc)), settled, sd),
        edge_relaxed(g, fr.push((g[j].1, nc)), settled, sd, j),
        forall|j2: int| #[trigger]
            edge_relaxed(g, fr, settled, sd, j2) ==> edge_relaxed(
                g,
                fr.push((g[j].1, nc)),
                settled,
                sd,
                j2,
            ),
{
    lemma_max_weight_bounds(g);
    let t = g[j].1;
    let x = (t, nc);
    let fr2 = fr.push(x);
    let tbl2 = tbl.push(x);
    let mw = max_weight(g);
    let n1 = settled.len() as int;
    assert(reaches(g, start, name, sd[name] as int));
    lemma_reaches_step(g, start, j, sd[name] as int);
    assert(reaches(g, start, t, nc as int));
    assert(n1 * mw + mw <= (n1 + 1) * mw) by (nonlinear_arith);
    assert(nc as int <= (n1 + 1) * mw);
    // per-entry facts
    assert forall|i: int| 0 <= i < fr2.len() implies reaches(
        g,
        start,
        (#[trigger] fr2[i]).0,
        fr2[i].1 as int,
    ) && fr2[i].1 as int <= (settled.len() + 1) * max_weight(g) && node_pool(g, start).contains(
        fr2[i].0,
    ) && table_at_most(tbl2, fr2[i].0, fr2[i].1 as int) by {
        if i < fr.len() {
            assert(fr2[i] == fr[i]);
            lemma_table_at_most_push(tbl, x, fr[i].0, fr[i].1 as int);
        } else {
            assert(fr2[i] == x);
            lemma_target_in_pool(g, start, j);
            assert(tbl2[tbl.len() as int] == x);
        }
    }
    // per-row facts
    assert forall|k: int| 0 <= k < tbl2.len() implies reaches(
        g,
        start,
        (#[trigger] tbl2[k]).0,
        tbl2[k].1 as int,
    ) && (settled.contains(tbl2[k].0) || frontier_at_most(fr2, tbl2[k].0, tbl2[k].1 as int)) by {
        if k < tbl.len() {
            assert(tbl2[k] == tbl[k]);
            if !settled.contains(tbl[k].0) {
                lemma_frontier_at_most_push(fr, x, tbl[k].0, tbl[k].1 as int);
            }
        } else {
            assert(tbl2[k] == x);
            assert(fr2[fr.len() as int] == x);
            assert(frontier_at_most(fr2, t, nc as int));
        }
    }
    assert forall|k1: int, k2: int| 0 <= k1 < k2 < tbl2.len() implies (#[trigger] tbl2[k1]).0 != (
    #[trigger] tbl2[k2]).0 by {
        if k2 < tbl.len() {
            assert(tbl2[k1] == tbl[k1] && tbl2[k2] == tbl[k2]);
        } else {
            assert(tbl2[k1] == tbl[k1] && tbl2[k2] == x);
        }
    }
    assert forall|v: char| #[trigger] settled.contains(v) implies table_exact(tbl2, v, sd[v]) by {
        lemma_table_exact_push(tbl, x, v, sd[v]);
    }
    if !settled.contains(start) {
        lemma_frontier_at_most_push(fr, x, start, 0);
    }
    assert(fr2[fr.len() as int] == x);
    assert(frontier_at_most(fr2, t, sd[g[j].0] as int + g[j].2));
    assert forall|j2: int| #[trigger] edge_relaxed(g, fr, settled, sd, j2) implies edge_relaxed(
        g,
        fr2,
        settled,
        sd,
        j2,
    ) by {
        lemma_relaxed_push(g, fr, settled, sd, j2, x);
    }
}

/// Re-recording a cheaper cost for an already-known node, and pushing the
/// matching entry, preserves every invariant and relaxes the edge.
proof fn lemma_push_update(
    g: Seq<Edge>,
    start: char,
    goal: char,
    fr: Seq<(char, u128)>,
    tbl: Seq<(char, u128)>,
    settled: Set<char>,
    sd: Map<char, u128>,
    name: char,
    j: int,
    nc: u128,
    k2: int,
)
    requires
        core_inv(g, start, goal, fr, tbl, settled, sd),
        settled.contains(name),
        sd.dom().contains(name),
        0 <= j < g.len(),
        g[j].0 == name,
        nc as int == sd[name] as int + g[j].2 as int,
        0 <= k2 < tbl.len(),
        tbl[k2].0 == g[j].1,
        nc < tbl[k2].1,
    ensures
        core_inv(
            g,
            start,
            goal,
            fr.push((g[j].1, nc)),
            tbl.update(k2, (g[j].1, nc)),
            settled,
            sd,
        ),
        edge_relaxed(g, fr.push((g[j].1, nc)), settled, sd, j),
        forall|j2: int| #[trigger]
            edge_relaxed(g, fr, settled, sd, j2) ==> edge_relaxed(
                g,
                fr.push((g[j].1, nc)),
                settled,
                sd,
                j2,
            ),
{
    lemma_max_weight_bounds(g);
    let t = g[j].1;
    let x = (t, nc);
    let fr2 = fr.push(x);
    let tbl2 = tbl.update(k2, x);
    let mw = max_weight(g);
    let n1 = settled.len() as int;
    assert(reaches(g, start, name, sd[name] as int));
    lemma_reaches_step(g, start, j, sd[name] as int);
    assert(reaches(g, start, t, nc as int));
    assert(n1 * mw + mw <= (n1 + 1) * mw) by (nonlinear_arith);
    assert(nc as int <= (n1 + 1) * mw);
    // the target cannot be settled: its settled cost would already undercut nc
    if settled.contains(t) {
        lemma_settled_row(tbl, settled, sd, t, k2);
        assert(sd[t] == tbl[k2].1);
        assert(sd[t] as int <= nc as int);
        assert(false);
    }
    // per-entry facts
    assert forall|i: int| 0 <= i < fr2.len() implies reaches(
        g,
        start,
        (#[trigger] fr2[i]).0,
        fr2[i].1 as int,
    ) && fr2[i].1 as int <= (settled.len() + 1) * max_weight(g) && node_pool(g, start).contains(
        fr2[i].0,
    ) && table_at_most(tbl2, fr2[i].0, fr2[i].1 as int) by {
        if i < fr.len() {
            assert(fr2[i] == fr[i]);
            assert(table_at_most(tbl, fr[i].0, fr[i].1 as int));
            let kw = choose|k: int|
                0 <= k < tbl.len() && (#[trigger] tbl[k]).0 == fr[i].0 && tbl[k].1 as int
                    <= fr[i].1 as int;
            if kw == k2 {
                assert(tbl2[k2] == x);
                assert(0 <= k2 < tbl2.len() && tbl2[k2].0 == fr[i].0 && tbl2[k2].1 as int
                    <= fr[i].1 as int);
            } else {
                assert(tbl2[kw] == tbl[kw]);
                assert(0 <= kw < tbl2.len() && tbl2[kw].0 == fr[i].0 && tbl2[kw].1 as int
                    <= fr[i].1 as int);
            }
        } else {
            assert(fr2[i] == x);
            lemma_target_in_pool(g, start, j);
            assert(tbl2[k2] == x);
            assert(0 <= k2 < tbl2.len() && tbl2[k2].0 == t && tbl2[k2].1 as int <= nc as int);
        }
    }
    // per-row facts
    assert forall|k: int| 0 <= k < tbl2.len() implies reaches(
        g,
        start,
        (#[trigger] tbl2[k]).0,
        tbl2[k].1 as int,
    ) && (settled.contains(tbl2[k].0) || frontier_at_most(fr2, tbl2[k].0, tbl2[k].1 as int)) by {
        if k != k2 {
            assert(tbl2[k] == tbl[k]);
            if !settled.contains(tbl[k].0) {
                lemma_frontier_at_most_push(fr, x, tbl[k].0, tbl[k].1 as int);
            }
        } else {
            assert(tbl2[k] == x);
            assert(fr2[fr.len() as int] == x);
            assert(frontier_at_most(fr2, t, nc as int));
        }
    }
    assert forall|k1: int, kb: int| 0 <= k1 < kb < tbl2.len() implies (#[trigger] tbl2[k1]).0 != (
    #[trigger] tbl2[kb]).0 by {
        assert(tbl2[k1].0 == tbl[k1].0 && tbl2[kb].0 == tbl[kb].0);
    }
    assert forall|v: char| #[trigger] settled.contains(v) implies table_exact(tbl2, v, sd[v]) by {
        assert(table_exact(tbl, v, sd[v]));
        let kv = choose|k: int|
            0 <= k < tbl.len() && (#[trigger] tbl[k]).0 == v && tbl[k].1 == sd[v];
        assert(kv != k2);
        assert(tbl2[kv] == tbl[kv]);
        assert(0 <= kv < tbl2.len() && tbl2[kv].0 == v && tbl2[kv].1 == sd[v]);
    }
    if !settled.contains(start) {
        lemma_frontier_at_most_push(fr, x, start, 0);
    }
    assert(fr2[fr.len() as int] == x);
    assert(frontier_at_most(fr2, t, sd[g[j].0] as int + g[j].2));
    assert forall|j2: int| #[trigger] edge_relaxed(g, fr, settled, sd, j2) implies edge_relaxed(
        g,
        fr2,
        settled,
        sd,
        j2,
    ) by {
        lemma_relaxed_push(g, fr, settled, sd, j2, x);
    }
}

// ---------------------------------------------------------------------------
// The executable search.
// ---------------------------------------------------------------------------

/// Index of a cheapest frontier entry; ties may fall on any of the equals.
fn min_index(fr: &Vec<(char, u128)>) -> (mi: usize)
    requires
        fr@.len() > 0,
    ensures
        mi < fr@.len(),
        forall|i: int| 0 <= i < fr@.len() ==> fr@[mi as int].1 <= (#[trigger] fr@[i]).1,
{
    let mut mi: usize = 0;
    let mut i: usize = 1;
    let n: usize = fr.len();
    while i < n
        invariant
            n == fr@.len(),
            mi < i,
            i <= n,
            forall|k: int| 0 <= k < i ==> fr@[mi as int].1 <= (#[trigger] fr@[k]).1,
        decreases n - i,
    {
        if fr[i].1 < fr[mi].1 {
            mi = i;
        }
        i = i + 1;
    }
    mi
}

/// Position of `key` in the best-known-cost table, if it has one.
fn find_key(tbl: &Vec<(char, u128)>, key: char) -> (r: Option<usize>)
    ensures
        match r {
            Some(k) => k < tbl@.len() && tbl@[k as int].0 == key,
            None => forall|k: int| 0 <= k < tbl@.len() ==> (#[trigger] tbl@[k]).0 != key,
        },
{
    let n: usize = tbl.len();
    let mut k: usize = 0;
    while k < n
        invariant
            n == tbl@.len(),
            k <= n,
            forall|k2: int| 0 <= k2 < k ==> (#[trigger] tbl@[k2]).0 != key,
        decreases n - k,
    {
        if tbl[k].0 == key {
            return Some(k);
        }
        k = k + 1;
    }
    None
}

impl Graph {
    /// Uniform-cost search: the least total edge weight over all directed
    /// paths from `start` to `goal`, or `None` when no path leads there.
    ///
    /// `start == goal` is reached by the empty path, so the answer is then
    /// `Some(0)` whether or not the node occurs in the graph. Costs
    /// accumulate in a carrier wide enough that no sum of edge weights can
    /// overflow it.
    #[verifier::rlimit(100)]
    pub fn uniform_cost_search(&self, start: char, goal: char) -> (r: Option<u128>)
        ensures
            match r {
                Some(c) => is_min_cost(self@, start, goal, c as int),
                None => !connected(self@, start, goal),
            },
            start == goal ==> r == Some(0u128),
    {
        let ghost g = self@;
        let n_edges: usize = self.edge_count();
        let mut frontier: Vec<(char, u128)> = Vec::new();
        frontier.push((start, 0));
        let mut table: Vec<(char, u128)> = Vec::new();
        table.push((start, 0));
        let ghost mut settled: Set<char> = Set::empty();
        let ghost mut sd: Map<char, u128> = Map::empty();
        proof {
            broadcast use vstd::set::axiom_set_empty_len;

            lemma_reaches_self(g, start);
            lemma_max_weight_bounds(g);
            assert(settled.len() == 0);
            assert(frontier@[0] == (start, 0u128));
            assert(table@[0] == (start, 0u128));
            assert(table_at_most(table@, start, 0));
            assert(frontier_at_most(frontier@, start, 0));
            assert(node_pool(g, start).contains(start));
            assert((settled.len() + 1) * max_weight(g) == max_weight(g));
            assert(search_inv(g, start, goal, frontier@, table@, settled, sd));
        }
        while frontier.len() > 0
            invariant
                g == self@,
                n_edges == g.len(),
                search_inv(g, start, goal, frontier@, table@, settled, sd),
            decreases node_pool(g, start).len() - settled.len(), frontier@.len(),
        {
            let ghost fr0 = frontier@;
            let ghost settled0 = settled;
            proof {
                lemma_node_pool_card(g, start);
                lemma_len_subset(settled, node_pool(g, start));
            }
            let mi = min_index(&frontier);
            let name: char = frontier[mi].0;
            let cost: u128 = frontier[mi].1;
            if name == goal {
                proof {
                    assert(fr0[mi as int] == (name, cost));
                    assert(reaches(g, start, goal, cost as int));
                    assert forall|c2: int| #[trigger] reaches(g, start, goal, c2)
                        implies cost as int <= c2 by {
                        let p = choose|p: Seq<int>|
                            path_ok(g, p, start, goal) && path_cost(g, p) == c2;
                        lemma_frontier_bounds_paths(g, start, fr0, settled, sd, p, goal);
                        let i = choose|i: int|
                            0 <= i < fr0.len() && (#[trigger] fr0[i]).1 as int <= path_cost(g, p);
                        assert(fr0[mi as int].1 <= fr0[i].1);
                    }
                    assert(is_min_cost(g, start, goal, cost as int));
                    if start == goal {
                        lemma_min_cost_reflexive(g, start);
                        lemma_min_cost_unique(g, start, goal, cost as int, 0);
                    }
                }
                return Some(cost);
            }
            let _popped: (char, u128) = frontier.remove(mi);
            let ghost fr1 = frontier@;
            proof {
                assert(fr1 == fr0.remove(mi as int));
            }
            let ti = find_key(&table, name);
            proof {
                assert(fr0[mi as int] == (name, cost));
                assert(table_at_most(table@, name, cost as int));
                if ti is None {
                    let kw = choose|k: int|
                        0 <= k < table@.len() && (#[trigger] table@[k]).0 == name
                            && table@[k].1 as int <= cost as int;
                    assert(table@[kw].0 != name);
                    assert(false);
                }
            }
            let k: usize = ti.unwrap();
            let tcost: u128 = table[k].1;
            proof {
                let kw = choose|kx: int|
                    0 <= kx < table@.len() && (#[trigger] table@[kx]).0 == name
                        && table@[kx].1 as int <= cost as int;
                if kw != k as int {
                    assert(table@[kw].0 != table@[k as int].0);
                    assert(false);
                }
                assert(tcost <= cost);
            }
            if tcost < cost {
                // A cheaper cost for this node is already recorded: the entry
                // is stale and is simply discarded.
                proof {
                    lemma_stale_pop(g, start, goal, fr0, table@, settled, sd, mi as int, k as int);
                }
            } else {
                let ghost was_settled = settled.contains(name);
                proof {
                    assert(tcost == cost);
                    lemma_settle_pop(
                        g,
                        start,
                        goal,
                        fr0,
                        table@,
                        settled0,
                        sd,
                        mi as int,
                        k as int,
                        settled0.insert(name),
                        sd.insert(name, cost),
                    );
                    settled = settled0.insert(name);
                    sd = sd.insert(name, cost);
                    lemma_len_subset(settled, node_pool(g, start));
                }
                // Relax every outgoing edge of the settled node.
                let mut j: usize = 0;
                while j < n_edges
                    invariant
                        g == self@,
                        n_edges == g.len(),
                        j <= n_edges,
                        core_inv(g, start, goal, frontier@, table@, settled, sd),
                        settled.contains(name),
                        sd.dom().contains(name),
                        sd[name] == cost,
                        forall|j2: int|
                            0 <= j2 < g.len() && settled.contains((#[trigger] g[j2]).0) && (
                            g[j2].0 != name || j2 < j) ==> edge_relaxed(
                                g,
                                frontier@,
                                settled,
                                sd,
                                j2,
                            ),
                        was_settled ==> frontier@ == fr1 && forall|j2: int|
                            0 <= j2 < g.len() && (#[trigger] g[j2]).0 == name ==> edge_relaxed(
                                g,
                                frontier@,
                                settled,
                                sd,
                                j2,
                            ),
                    decreases n_edges - j,
                {
                    let e: Edge = self.edge_at(j);
                    if e.0 == name {
                        proof {
                            assert(g[j as int] == e);
                            lemma_max_weight_bounds(g);
                            lemma_cost_fits(
                                g,
                                start,
                                settled,
                                cost as int,
                                e.2 as int,
                                n_edges as int,
                            );
                        }
                        let w: u128 = e.2 as u128;
                        let new_cost: u128 = cost + w;
                        let ti2 = find_key(&table, e.1);
                        match ti2 {
                            None => {
                                proof {
                                    if was_settled {
                                        assert(edge_relaxed(g, frontier@, settled, sd, j as int));
                                        lemma_relaxed_gives_row(
                                            g,
                                            frontier@,
                                            table@,
                                            settled,
                                            sd,
                                            j as int,
                                        );
                                        let kw = choose|kx: int|
                                            0 <= kx < table@.len() && (#[trigger] table@[kx]).0
                                                == g[j as int].1 && table@[kx].1 as int
                                                <= sd[g[j as int].0] as int + g[j as int].2;
                                        assert(table@[kw].0 != e.1);
                                        assert(false);
                                    }
                                    lemma_push_fresh(
                                        g,
                                        start,
                                        goal,
                                        frontier@,
                                        table@,
                                        settled,
                                        sd,
                                        name,
                                        j as int,
                                        new_cost,
                                    );
                                }
                                table.push((e.1, new_cost));
                                frontier.push((e.1, new_cost));
                            },
                            Some(k2) => {
                                let c2: u128 = table[k2].1;
                                if new_cost < c2 {
                                    proof {
                                        if was_settled {
                                            assert(edge_relaxed(
                                                g,
                                                frontier@,
                                                settled,
                                                sd,
                                                j as int,
                                            ));
                                            lemma_relaxed_gives_row(
                                                g,
                                                frontier@,
                                                table@,
                                                settled,
                                                sd,
                                                j as int,
                                            );
                                            let kw = choose|kx: int|
                                                0 <= kx < table@.len() && (#[trigger] table@[kx]).0
                                                    == g[j as int].1 && table@[kx].1 as int
                                                    <= sd[g[j as int].0] as int + g[j as int].2;
                                            if kw != k2 as int {
                                                assert(table@[kw].0 != table@[k2 as int].0);
                                            }
                                            assert(false);
                                        }
                                        lemma_push_update(
                                            g,
                                            start,
                                            goal,
                                            frontier@,
                                            table@,
                                            settled,
                                            sd,
                                            name,
                                            j as int,
                                            new_cost,
                                            k2 as int,
                                        );
                                    }
                                    table.set(k2, (e.1, new_cost));
                                    frontier.push((e.1, new_cost));
                                } else {
                                    proof {
                                        // the recorded cost already meets the
                                        // bound, so the edge counts as relaxed
                                        assert(table@[k2 as int] == (e.1, c2));
                                        if settled.contains(e.1) {
                                            lemma_settled_row(
                                                table@,
                                                settled,
                                                sd,
                                                e.1,
                                                k2 as int,
                                            );
                                            assert(sd[e.1] == c2);
                                            assert(edge_relaxed(
                                                g,
                                                frontier@,
                                                settled,
                                                sd,
                                                j as int,
                                            ));
                                        } else {
                                            assert(frontier_at_most(
                                                frontier@,
                                                e.1,
                                                c2 as int,
                                            ));
                                            lemma_frontier_at_most_weaken(
                                                frontier@,
                                                e.1,
                                                c2 as int,
                                                sd[g[j as int].0] as int + g[j as int].2,
                                            );
                                            assert(edge_relaxed(
                                                g,
                                                frontier@,
                                                settled,
                                                sd,
                                                j as int,
                                            ));
                                        }
                                    }
                                }
                            },
                        }
                    }
                    j = j + 1;
                }
                proof {
                    assert(inv_relaxed(g, frontier@, settled, sd));
                    assert(search_inv(g, start, goal, frontier@, table@, settled, sd));
                    lemma_node_pool_card(g, start);
                    lemma_len_subset(settled, node_pool(g, start));
                    if was_settled {
                        assert(settled == settled0);
                        assert(frontier@.len() < fr0.len());
                    } else {
                        assert(settled.len() == settled0.len() + 1);
                    }
                }
            }
        }
        proof {
            if connected(g, start, goal) {
                let c = choose|c: int| reaches(g, start, goal, c);
                let p = choose|p: Seq<int>| path_ok(g, p, start, goal) && path_cost(g, p) == c;
                lemma_frontier_bounds_paths(g, start, frontier@, settled, sd, p, goal);
                let i = choose|i: int|
                    0 <= i < frontier@.len() && (#[trigger] frontier@[i]).1 as int <= path_cost(
                        g,
                        p,
                    );
                assert(false);
            }
            if start == goal {
                lemma_reaches_self(g, start);
                assert(connected(g, start, goal));
                assert(false);
            }
        }
        None
    }
}

} // verus!
