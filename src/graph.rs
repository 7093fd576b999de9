//! The directed graph that PageRank iterates over: for each node its
//! out-neighbours, its in-neighbours and its out-degree, in the order of the
//! edge list it was built from.

use vstd::prelude::*;
use crate::hub_detection::edge_accepted;

verus! {

/// Targets of the accepted edges of `edges` that leave `v`, in edge-list order.
pub open spec fn out_neighbors(edges: Seq<(usize, usize)>, n: nat, v: usize) -> Seq<usize>
    decreases edges.len(),
{
    if edges.len() == 0 {
        Seq::empty()
    } else {
        let e = edges.last();
        let prev = out_neighbors(edges.drop_last(), n, v);
        if edge_accepted(e, n) && e.0 == v { prev.push(e.1) } else { prev }
    }
}

/// Sources of the accepted edges of `edges` that enter `v`, in edge-list order.
pub open spec fn in_neighbors(edges: Seq<(usize, usize)>, n: nat, v: usize) -> Seq<usize>
    decreases edges.len(),
{
    if edges.len() == 0 {
        Seq::empty()
    } else {
        let e = edges.last();
        let prev = in_neighbors(edges.drop_last(), n, v);
        if edge_accepted(e, n) && e.1 == v { prev.push(e.0) } else { prev }
    }
}

/// A directed graph on the nodes `0..num_nodes`, built once from an edge list.
pub struct DependencyGraph {
    num_nodes: usize,
    adjacency: Vec<Vec<usize>>,
    in_edges: Vec<Vec<usize>>,
    out_degree: Vec<usize>,
}

impl DependencyGraph {
    /// Number of nodes.
    pub closed spec fn node_count(&self) -> nat {
        self.num_nodes as nat
    }

    /// Out-neighbours of `v`, in the order of the edges.
    pub closed spec fn successors(&self, v: int) -> Seq<usize> {
        self.adjacency@[v]@
    }

    /// In-neighbours of `v`, in the order of the edges.
    pub closed spec fn predecessors(&self, v: int) -> Seq<usize> {
        self.in_edges@[v]@
    }

    /// Out-degree of `v`.
    pub closed spec fn degree_out(&self, v: int) -> nat {
        self.out_degree@[v] as nat
    }

    /// One list per node; each out-degree is the length of its list; every
    /// neighbour is a node of the graph.
    pub closed spec fn wf(&self) -> bool {
        &&& self.adjacency@.len() == self.num_nodes
        &&& self.in_edges@.len() == self.num_nodes
        &&& self.out_degree@.len() == self.num_nodes
        &&& forall|v: int| 0 <= v < self.num_nodes ==> #[trigger] self.out_degree@[v] == self.adjacency@[v]@.len()
        &&& forall|v: int, k: int| 0 <= v < self.num_nodes && 0 <= k < self.adjacency@[v]@.len()
            ==> #[trigger] self.adjacency@[v]@[k] < self.num_nodes
        &&& forall|v: int, k: int| 0 <= v < self.num_nodes && 0 <= k < self.in_edges@[v]@.len()
            ==> #[trigger] self.in_edges@[v]@[k] < self.num_nodes
    }

    /// Builds the graph from the edges whose endpoints are both below
    /// `num_nodes`; other edges are dropped. Self-loops and repeated edges are
    /// kept as given.
    pub fn new(num_nodes: usize, edges: &[(usize, usize)]) -> (r: DependencyGraph)
        ensures
            r.wf(),
            r.node_count() == num_nodes,
            forall|v: usize| v < num_nodes ==> #[trigger] r.successors(v as int) == out_neighbors(edges@, num_nodes as nat, v),
            forall|v: usize| v < num_nodes ==> #[trigger] r.predecessors(v as int) == in_neighbors(edges@, num_nodes as nat, v),
            forall|v: usize| v < num_nodes ==> #[trigger] r.degree_out(v as int) == out_neighbors(edges@, num_nodes as nat, v).len(),
    {
        let ghost n = num_nodes as nat;
        let mut adjacency: Vec<Vec<usize>> = Vec::new();
        let mut in_edges: Vec<Vec<usize>> = Vec::new();
        let mut out_degree: Vec<usize> = Vec::new();
        let mut v: usize = 0;
        while v < num_nodes
            invariant
                v <= num_nodes,
                adjacency@.len() == v,
                in_edges@.len() == v,
                out_degree@.len() == v,
                forall|u: int| 0 <= u < v ==> (#[trigger] adjacency@[u])@.len() == 0,
                forall|u: int| 0 <= u < v ==> (#[trigger] in_edges@[u])@.len() == 0,
                forall|u: int| 0 <= u < v ==> #[trigger] out_degree@[u] == 0,
            decreases num_nodes - v,
        {
            adjacency.push(Vec::new());
            in_edges.push(Vec::new());
            out_degree.push(0);
            v = v + 1;
        }
        let mut i: usize = 0;
        while i < edges.len()
            invariant
                i <= edges@.len(),
                n == num_nodes as nat,
                adjacency@.len() == num_nodes,
                in_edges@.len() == num_nodes,
                out_degree@.len() == num_nodes,
                forall|u: int| 0 <= u < num_nodes ==> (#[trigger] adjacency@[u])@ == out_neighbors(edges@.subrange(0, i as int), n, u as usize),
                forall|u: int| 0 <= u < num_nodes ==> (#[trigger] in_edges@[u])@ == in_neighbors(edges@.subrange(0, i as int), n, u as usize),
                forall|u: int| 0 <= u < num_nodes ==> #[trigger] out_degree@[u] == adjacency@[u]@.len(),
                forall|u: int| 0 <= u < num_nodes ==> adjacency@[u]@.len() <= i,
                forall|u: int, k: int| 0 <= u < num_nodes && 0 <= k < adjacency@[u]@.len()
                    ==> #[trigger] adjacency@[u]@[k] < num_nodes,
                forall|u: int, k: int| 0 <= u < num_nodes && 0 <= k < in_edges@[u]@.len()
                    ==> #[trigger] in_edges@[u]@[k] < num_nodes,
            decreases edges.len() - i,
        {
            let (src, tgt) = edges[i];
            let ghost pre = edges@.subrange(0, i as int);
            let ghost next = edges@.subrange(0, i + 1);
            assert(next.drop_last() == pre);
            assert(next.last() == (src, tgt));
            let ghost adj_old = adjacency@;
            let ghost in_old = in_edges@;
            if src < num_nodes && tgt < num_nodes {
                adjacency[src].push(tgt);
                in_edges[tgt].push(src);
                let d = out_degree[src];
                assert(d == adj_old[src as int]@.len());
                out_degree.set(src, d + 1);
            }
            assert forall|u: int| 0 <= u < num_nodes implies (#[trigger] adjacency@[u])@ == out_neighbors(next, n, u as usize) by {
                assert(adj_old[u]@ == out_neighbors(pre, n, u as usize));
            }
            assert forall|u: int| 0 <= u < num_nodes implies (#[trigger] in_edges@[u])@ == in_neighbors(next, n, u as usize) by {
                assert(in_old[u]@ == in_neighbors(pre, n, u as usize));
            }
            assert forall|u: int, k: int| 0 <= u < num_nodes && 0 <= k < adjacency@[u]@.len()
                implies #[trigger] adjacency@[u]@[k] < num_nodes by {
                if k < adj_old[u]@.len() {
                    assert(adjacency@[u]@[k] == adj_old[u]@[k]);
                }
            }
            assert forall|u: int, k: int| 0 <= u < num_nodes && 0 <= k < in_edges@[u]@.len()
                implies #[trigger] in_edges@[u]@[k] < num_nodes by {
                if k < in_old[u]@.len() {
                    assert(in_edges@[u]@[k] == in_old[u]@[k]);
                }
            }
            i = i + 1;
        }
        assert(edges@.subrange(0, edges@.len() as int) == edges@);
        DependencyGraph { num_nodes, adjacency, in_edges, out_degree }
    }

    /// Number of nodes.
    pub fn num_nodes(&self) -> (r: usize)
        ensures
            r == self.node_count(),
    {
        self.num_nodes
    }

    /// Out-neighbours of `v`, in the order of the edges.
    pub fn out_neighbors(&self, v: usize) -> (r: &Vec<usize>)
        requires
            self.wf(),
            v < self.node_count(),
        ensures
            r@ == self.successors(v as int),
    {
        &self.adjacency[v]
    }

    /// In-neighbours of `v`, in the order of the edges.
    pub fn in_neighbors(&self, v: usize) -> (r: &Vec<usize>)
        requires
            self.wf(),
            v < self.node_count(),
        ensures
            r@ == self.predecessors(v as int),
            forall|k: int| 0 <= k < r@.len() ==> #[trigger] r@[k] < self.node_count(),
    {
        &self.in_edges[v]
    }

    /// Out-degree of `v`.
    pub fn out_degree(&self, v: usize) -> (r: usize)
        requires
            self.wf(),
            v < self.node_count(),
        ensures
            r == self.degree_out(v as int),
            r as nat == self.successors(v as int).len(),
    {
        self.out_degree[v]
    }

    /// The dangling nodes, those without out-edges, in ascending order.
    pub fn dangling_nodes(&self) -> (r: Vec<usize>)
        requires
            self.wf(),
        ensures
            forall|i: int, j: int| 0 <= i < j < r@.len() ==> r@[i] < r@[j],
            forall|i: int| 0 <= i < r@.len() ==> #[trigger] r@[i] < self.node_count()
                && self.degree_out(r@[i] as int) == 0,
            forall|v: usize| v < self.node_count() && #[trigger] self.degree_out(v as int) == 0
                ==> r@.contains(v),
    {
        let mut out: Vec<usize> = Vec::new();
        let mut v: usize = 0;
        while v < self.num_nodes
            invariant
                self.wf(),
                v <= self.num_nodes,
                forall|i: int, j: int| 0 <= i < j < out@.len() ==> out@[i] < out@[j],
                forall|i: int| 0 <= i < out@.len() ==> #[trigger] out@[i] < v
                    && self.degree_out(out@[i] as int) == 0,
                forall|u: usize| u < v && #[trigger] self.degree_out(u as int) == 0 ==> out@.contains(u),
            decreases self.num_nodes - v,
        {
            let ghost before = out@;
            if self.out_degree[v] == 0 {
                out.push(v);
                assert(out@[out@.len() - 1] == v);
            }
            assert forall|u: usize| u < v + 1 && #[trigger] self.degree_out(u as int) == 0
                implies out@.contains(u) by {
                if u < v {
                    let k = choose|k: int| 0 <= k < before.len() && before[k] == u;
                    assert(out@[k] == before[k]);
                }
            }
            v = v + 1;
        }
        out
    }
}

} // verus!
