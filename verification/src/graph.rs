//! The adjacency store: a growing list of directed weighted edges.

use crate::paths::Edge;
use vstd::prelude::*;

verus! {

/// A weighted directed multigraph over `char` node identifiers.
///
/// Edges are kept in insertion order; parallel edges and self-loops are
/// allowed. A node exists simply by being named by an edge or a query: looking
/// up a node that no edge leaves yields an empty neighbor list, never an
/// error. The view of a graph is its edge sequence.
pub struct Graph {
    edges: Vec<Edge>,
}

impl View for Graph {
    type V = Seq<Edge>;

    closed spec fn view(&self) -> Seq<Edge> {
        self.edges@
    }
}

/// The outgoing `(target, weight)` pairs of `node`, in insertion order.
pub open spec fn outgoing(g: Seq<Edge>, node: char) -> Seq<(char, u32)>
    decreases g.len(),
{
    if g.len() == 0 {
        Seq::empty()
    } else if g.last().0 == node {
        outgoing(g.drop_last(), node).push((g.last().1, g.last().2))
    } else {
        outgoing(g.drop_last(), node)
    }
}

impl Graph {
    /// Creates a graph with no edges.
    pub fn new() -> (g: Graph)
        ensures
            g@ == Seq::<Edge>::empty(),
    {
        Graph { edges: Vec::new() }
    }

    /// Appends the directed edge `from -> to` with weight `cost`. Always
    /// succeeds; the node identifiers need not have been seen before.
    pub fn add_edge(&mut self, from: char, to: char, cost: u32)
        ensures
            final(self)@ == old(self)@.push((from, to, cost)),
    {
        self.edges.push((from, to, cost));
    }

    /// The number of edges inserted so far.
    pub fn edge_count(&self) -> (n: usize)
        ensures
            n == self@.len(),
    {
        self.edges.len()
    }

    /// The edge at position `j` in insertion order.
    pub fn edge_at(&self, j: usize) -> (e: Edge)
        requires
            j < self@.len(),
        ensures
            e == self@[j as int],
    {
        self.edges[j]
    }

    /// The ordered sequence of outgoing `(target, weight)` pairs of `node`;
    /// empty when no edge leaves `node`.
    pub fn neighbors(&self, node: char) -> (r: Vec<(char, u32)>)
        ensures
            r@ == outgoing(self@, node),
    {
        let mut r: Vec<(char, u32)> = Vec::new();
        let n: usize = self.edges.len();
        let mut j: usize = 0;
        while j < n
            invariant
                j <= n,
                n == self@.len(),
                r@ == outgoing(self@.take(j as int), node),
            decreases n - j,
        {
            let e = self.edges[j];
            proof {
                let pre = self@.take(j as int);
                let nxt = self@.take(j + 1 as int);
                assert(nxt.drop_last() =~= pre);
                assert(nxt.last() == self@[j as int]);
            }
            if e.0 == node {
                r.push((e.1, e.2));
            }
            j = j + 1;
        }
        proof {
            assert(self@.take(n as int) =~= self@);
        }
        r
    }
}

} // verus!
