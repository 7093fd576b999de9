//! Hub detection: in- and out-degree tables over a directed graph, hub
//! thresholds and summary statistics.

use vstd::prelude::*;
use crate::tables::{DegreeTable, degree_entries};

verus! {

/// Whether both endpoints of an edge name nodes of a graph with `n` nodes.
pub open spec fn edge_accepted(e: (usize, usize), n: nat) -> bool {
    e.0 < n && e.1 < n
}

/// The endpoint of an edge that a count looks at: its source or its target.
pub open spec fn edge_end(e: (usize, usize), source: bool) -> usize {
    if source { e.0 } else { e.1 }
}

/// Number of accepted edges of `edges` whose chosen endpoint is `v`.
pub open spec fn end_count(edges: Seq<(usize, usize)>, n: nat, v: usize, source: bool) -> nat
    decreases edges.len(),
{
    if edges.len() == 0 {
        0
    } else {
        let e = edges.last();
        end_count(edges.drop_last(), n, v, source)
            + if edge_accepted(e, n) && edge_end(e, source) == v { 1nat } else { 0nat }
    }
}

/// Number of accepted edges of `edges` whose chosen endpoint is below `k`.
pub open spec fn ends_below(edges: Seq<(usize, usize)>, n: nat, k: nat, source: bool) -> nat
    decreases edges.len(),
{
    if edges.len() == 0 {
        0
    } else {
        let e = edges.last();
        ends_below(edges.drop_last(), n, k, source)
            + if edge_accepted(e, n) && edge_end(e, source) < k { 1nat } else { 0nat }
    }
}

/// Number of accepted edges of `edges` that enter `v`.
pub open spec fn in_count(edges: Seq<(usize, usize)>, n: nat, v: usize) -> nat {
    end_count(edges, n, v, false)
}

/// Number of accepted edges of `edges` that leave `v`.
pub open spec fn out_count(edges: Seq<(usize, usize)>, n: nat, v: usize) -> nat {
    end_count(edges, n, v, true)
}

/// A degree table that holds exactly the non-zero counts given by `count`.
pub open spec fn holds_counts(m: Map<usize, usize>, count: spec_fn(usize) -> nat) -> bool {
    forall|v: usize|
        (#[trigger] m.contains_key(v) <==> count(v) > 0) && (m.contains_key(v) ==> m[v] == count(v))
}

/// The degree that a table records for a node; a missing key is zero.
pub open spec fn degree_of(m: Map<usize, usize>, v: usize) -> nat {
    if m.contains_key(v) { m[v] as nat } else { 0 }
}

/// Whether `a` is listed before `b` among hubs: higher in-degree first,
/// equal in-degrees by ascending node id.
pub open spec fn ranks_before(a: (usize, usize), b: (usize, usize)) -> bool {
    a.1 > b.1 || (a.1 == b.1 && a.0 < b.0)
}

/// Number of nodes below `n` whose recorded degree is at least `t`.
pub open spec fn nodes_at_least(m: Map<usize, usize>, n: nat, t: nat) -> nat
    decreases n,
{
    if n == 0 {
        0
    } else {
        nodes_at_least(m, (n - 1) as nat, t) + if degree_of(m, (n - 1) as usize) >= t { 1nat } else { 0nat }
    }
}

/// Largest recorded degree among the nodes below `n` (zero when there are none).
pub open spec fn max_degree(m: Map<usize, usize>, n: nat) -> nat
    decreases n,
{
    if n == 0 {
        0
    } else {
        let rest = max_degree(m, (n - 1) as nat);
        let d = degree_of(m, (n - 1) as usize);
        if d > rest { d } else { rest }
    }
}

/// Sum of the recorded degrees of the nodes below `n`.
pub open spec fn degree_sum(m: Map<usize, usize>, n: nat) -> nat
    decreases n,
{
    if n == 0 {
        0
    } else {
        degree_sum(m, (n - 1) as nat) + degree_of(m, (n - 1) as usize)
    }
}

/// Name of the hub level of a node with the given in-degree.
pub open spec fn hub_level(in_degree: nat) -> Seq<char> {
    if in_degree >= 8 {
        "critical"@
    } else if in_degree >= 5 {
        "high"@
    } else if in_degree >= 3 {
        "medium"@
    } else if in_degree >= 2 {
        "low"@
    } else {
        "none"@
    }
}

/// Statistics about the distribution of hubs in a graph.
pub struct HubStats {
    /// Number of nodes of the graph.
    pub total_nodes: usize,
    /// Number of nodes that at least one accepted edge enters.
    pub nodes_with_imports: usize,
    /// Number of nodes of in-degree at least 3.
    pub total_hubs: usize,
    /// Number of nodes of in-degree at least 8.
    pub critical_hubs: usize,
    /// Largest in-degree (zero without edges).
    pub max_in_degree: usize,
    /// Sum of all in-degrees: the number of accepted edges. The mean
    /// in-degree over the nodes with imports is this over `nodes_with_imports`.
    pub total_in_degree: usize,
}

proof fn lemma_ends_below_step(edges: Seq<(usize, usize)>, n: nat, k: nat, source: bool)
    requires
        k < usize::MAX,
    ensures
        ends_below(edges, n, k + 1, source) == ends_below(edges, n, k, source)
            + end_count(edges, n, k as usize, source),
    decreases edges.len(),
{
    if edges.len() > 0 {
        lemma_ends_below_step(edges.drop_last(), n, k, source);
    }
}

proof fn lemma_ends_below_zero(edges: Seq<(usize, usize)>, n: nat, source: bool)
    ensures
        ends_below(edges, n, 0, source) == 0,
    decreases edges.len(),
{
    if edges.len() > 0 {
        lemma_ends_below_zero(edges.drop_last(), n, source);
    }
}

proof fn lemma_ends_below_len(edges: Seq<(usize, usize)>, n: nat, k: nat, source: bool)
    ensures
        ends_below(edges, n, k, source) <= edges.len(),
    decreases edges.len(),
{
    if edges.len() > 0 {
        lemma_ends_below_len(edges.drop_last(), n, k, source);
    }
}

/// A table that holds the counts of an edge list sums, over the nodes below
/// `k`, to the number of accepted edges whose endpoint is below `k`.
proof fn lemma_degree_sum(m: Map<usize, usize>, edges: Seq<(usize, usize)>, n: nat, k: nat, source: bool)
    requires
        k <= usize::MAX,
        holds_counts(m, |v: usize| end_count(edges, n, v, source)),
    ensures
        degree_sum(m, k) == ends_below(edges, n, k, source),
    decreases k,
{
    if k > 0 {
        lemma_degree_sum(m, edges, n, (k - 1) as nat, source);
        lemma_ends_below_step(edges, n, (k - 1) as nat, source);
        let v = (k - 1) as usize;
        assert(m.contains_key(v) <==> end_count(edges, n, v, source) > 0);
    } else {
        lemma_ends_below_zero(edges, n, source);
    }
}

proof fn lemma_degree_sum_mono(m: Map<usize, usize>, k: nat, n: nat)
    requires
        k <= n,
    ensures
        degree_sum(m, k) <= degree_sum(m, n),
    decreases n,
{
    if k < n {
        lemma_degree_sum_mono(m, k, (n - 1) as nat);
    }
}

/// Number of nodes below `n` with neither in-edges nor out-edges.
pub open spec fn isolated_count(ins: Map<usize, usize>, outs: Map<usize, usize>, n: nat) -> nat
    decreases n,
{
    if n == 0 {
        0
    } else {
        let v = (n - 1) as usize;
        isolated_count(ins, outs, (n - 1) as nat)
            + if degree_of(ins, v) == 0 && degree_of(outs, v) == 0 { 1nat } else { 0nat }
    }
}

fn recorded_degree(t: &DegreeTable, v: usize) -> (r: usize)
    ensures
        r == degree_of(degree_entries(*t), v),
{
    match t.lookup(v) {
        Some(d) => d,
        None => 0,
    }
}

/// Counts the nodes below `n` whose degree in `t` is at least `threshold`.
fn count_at_least(t: &DegreeTable, n: usize, threshold: usize) -> (r: usize)
    ensures
        r == nodes_at_least(degree_entries(*t), n as nat, threshold as nat),
{
    let mut count: usize = 0;
    let mut v: usize = 0;
    while v < n
        invariant
            v <= n,
            count == nodes_at_least(degree_entries(*t), v as nat, threshold as nat),
            count <= v,
        decreases n - v,
    {
        if recorded_degree(t, v) >= threshold {
            count = count + 1;
        }
        v = v + 1;
    }
    count
}

/// The largest degree in `t` among the nodes below `n`, and the sum of those degrees.
fn max_and_sum(t: &DegreeTable, n: usize) -> (r: (usize, usize))
    requires
        degree_sum(degree_entries(*t), n as nat) <= usize::MAX,
    ensures
        r.0 == max_degree(degree_entries(*t), n as nat),
        r.1 == degree_sum(degree_entries(*t), n as nat),
{
    let mut max: usize = 0;
    let mut sum: usize = 0;
    let mut v: usize = 0;
    while v < n
        invariant
            v <= n,
            degree_sum(degree_entries(*t), n as nat) <= usize::MAX,
            max == max_degree(degree_entries(*t), v as nat),
            sum == degree_sum(degree_entries(*t), v as nat),
        decreases n - v,
    {
        let d = recorded_degree(t, v);
        proof {
            lemma_degree_sum_mono(degree_entries(*t), (v + 1) as nat, n as nat);
        }
        sum = sum + d;
        if d > max {
            max = d;
        }
        v = v + 1;
    }
    (max, sum)
}

/// Degree statistics of a whole graph.
pub struct GraphStats {
    /// Length of the edge list as given, dropped edges included.
    pub total_edges: usize,
    /// Sum of all in-degrees; the mean in-degree is this over the node count.
    pub total_in_degree: usize,
    /// Sum of all out-degrees; the mean out-degree is this over the node count.
    pub total_out_degree: usize,
    /// Largest in-degree (zero without edges).
    pub max_in_degree: usize,
    /// Largest out-degree (zero without edges).
    pub max_out_degree: usize,
    /// Number of nodes with neither in-edges nor out-edges.
    pub isolated_nodes: usize,
}

/// Hub detector over the in- and out-degrees of a directed graph.
pub struct HubDetector {
    num_nodes: usize,
    in_degree: DegreeTable,
    out_degree: DegreeTable,
}

impl HubDetector {
    /// Number of nodes of the graph.
    pub closed spec fn node_count(&self) -> nat {
        self.num_nodes as nat
    }

    /// The in-degree table: node id to the number of accepted edges entering it.
    pub closed spec fn in_degrees(&self) -> Map<usize, usize> {
        degree_entries(self.in_degree)
    }

    /// The out-degree table: node id to the number of accepted edges leaving it.
    pub closed spec fn out_degrees(&self) -> Map<usize, usize> {
        degree_entries(self.out_degree)
    }

    /// Both tables name nodes of the graph only.
    pub open spec fn wf(&self) -> bool {
        &&& forall|v: usize| #[trigger] self.in_degrees().contains_key(v) ==> v < self.node_count()
        &&& forall|v: usize| #[trigger] self.out_degrees().contains_key(v) ==> v < self.node_count()
        &&& degree_sum(self.in_degrees(), self.node_count()) <= usize::MAX
        &&& degree_sum(self.out_degrees(), self.node_count()) <= usize::MAX
    }

    /// The recorded in-degree of `v`, zero if no accepted edge enters it.
    pub open spec fn in_degree_of(&self, v: usize) -> nat {
        degree_of(self.in_degrees(), v)
    }

    /// The recorded out-degree of `v`, zero if no accepted edge leaves it.
    pub open spec fn out_degree_of(&self, v: usize) -> nat {
        degree_of(self.out_degrees(), v)
    }

    /// Looks up a node's in-degree; zero for a node without in-edges.
    pub fn in_degree(&self, v: usize) -> (r: usize)
        ensures
            r == self.in_degree_of(v),
    {
        match self.in_degree.lookup(v) {
            Some(d) => d,
            None => 0,
        }
    }

    /// Looks up a node's out-degree; zero for a node without out-edges.
    pub fn out_degree(&self, v: usize) -> (r: usize)
        ensures
            r == self.out_degree_of(v),
    {
        match self.out_degree.lookup(v) {
            Some(d) => d,
            None => 0,
        }
    }

    /// Names the hub level of an in-degree: "critical" from 8, "high" from 5,
    /// "medium" from 3, "low" from 2, "none" below.
    pub fn classify_hub(in_degree: usize) -> (r: &'static str)
        ensures
            r@ == hub_level(in_degree as nat),
    {
        if in_degree >= 8 {
            "critical"
        } else if in_degree >= 5 {
            "high"
        } else if in_degree >= 3 {
            "medium"
        } else if in_degree >= 2 {
            "low"
        } else {
            "none"
        }
    }

    /// Every node whose in-degree is at least `threshold` (a node without
    /// in-edges has in-degree zero), as `(node, in_degree)`, highest in-degree
    /// first and equal in-degrees by ascending node id.
    #[verifier::loop_isolation(false)]
    pub fn find_hubs(&self, threshold: usize) -> (r: Vec<(usize, usize)>)
        ensures
            r@.len() == nodes_at_least(self.in_degrees(), self.node_count(), threshold as nat),
            forall|i: int, j: int| 0 <= i < j < r@.len() ==> ranks_before(r@[i], r@[j]),
            forall|i: int|
                0 <= i < r@.len() ==> (#[trigger] r@[i]).0 < self.node_count()
                    && r@[i].1 == self.in_degree_of(r@[i].0) && r@[i].1 >= threshold,
            forall|v: usize|
                v < self.node_count() && #[trigger] self.in_degree_of(v) >= threshold
                    ==> exists|i: int| 0 <= i < r@.len() && r@[i].0 == v,
    {
        let mut hubs: Vec<(usize, usize)> = Vec::new();
        let mut v: usize = 0;
        while v < self.num_nodes
            invariant
                v <= self.num_nodes,
                hubs@.len() == nodes_at_least(self.in_degrees(), v as nat, threshold as nat),
                forall|i: int, j: int| 0 <= i < j < hubs@.len() ==> ranks_before(hubs@[i], hubs@[j]),
                forall|i: int|
                    0 <= i < hubs@.len() ==> (#[trigger] hubs@[i]).0 < v
                        && hubs@[i].1 == self.in_degree_of(hubs@[i].0) && hubs@[i].1 >= threshold,
                forall|u: usize|
                    u < v && #[trigger] self.in_degree_of(u) >= threshold
                        ==> exists|i: int| 0 <= i < hubs@.len() && hubs@[i].0 == u,
            decreases self.num_nodes - v,
        {
            let d = self.in_degree(v);
            let ghost before = hubs@;
            if d >= threshold {
                let mut pos: usize = 0;
                while pos < hubs.len() && hubs[pos].1 >= d
                    invariant
                        pos <= hubs@.len(),
                        forall|i: int| 0 <= i < pos ==> #[trigger] hubs@[i].1 >= d,
                    decreases hubs@.len() - pos,
                {
                    pos = pos + 1;
                }
                hubs.insert(pos, (v, d));
                assert(pos < before.len() ==> before[pos as int].1 < d);
                assert forall|i: int, j: int| 0 <= i < j < hubs@.len() implies ranks_before(hubs@[i], hubs@[j]) by {
                    if j < pos {
                        assert(hubs@[i] == before[i] && hubs@[j] == before[j]);
                    } else if j == pos {
                        assert(hubs@[i] == before[i] && hubs@[j] == (v, d));
                        assert(before[i].1 >= d && before[i].0 < v);
                    } else if i < pos {
                        assert(hubs@[i] == before[i] && hubs@[j] == before[j - 1]);
                        assert(ranks_before(before[i], before[j - 1]));
                    } else if i == pos {
                        assert(hubs@[i] == (v, d) && hubs@[j] == before[j - 1]);
                        if j - 1 > pos {
                            assert(ranks_before(before[pos as int], before[j - 1]));
                        }
                    } else {
                        assert(hubs@[i] == before[i - 1] && hubs@[j] == before[j - 1]);
                        assert(ranks_before(before[i - 1], before[j - 1]));
                    }
                }
                assert forall|i: int| 0 <= i < hubs@.len() implies (#[trigger] hubs@[i]).0 < v + 1
                    && hubs@[i].1 == self.in_degree_of(hubs@[i].0) && hubs@[i].1 >= threshold by {
                    if i < pos {
                        assert(hubs@[i] == before[i]);
                    } else if i > pos {
                        assert(hubs@[i] == before[i - 1]);
                    }
                }
                assert forall|u: usize| u < v + 1 && #[trigger] self.in_degree_of(u) >= threshold
                    implies exists|i: int| 0 <= i < hubs@.len() && hubs@[i].0 == u by {
                    if u == v {
                        assert(hubs@[pos as int].0 == u);
                    } else {
                        let k = choose|k: int| 0 <= k < before.len() && before[k].0 == u;
                        if k < pos {
                            assert(hubs@[k].0 == u);
                        } else {
                            assert(hubs@[k + 1].0 == u);
                        }
                    }
                }
            }
            v = v + 1;
        }
        hubs
    }

    /// A copy of the in-degree table.
    pub fn get_in_degrees(&self) -> (r: DegreeTable)
        ensures
            degree_entries(r) == self.in_degrees(),
    {
        self.in_degree.copy()
    }

    /// A copy of the out-degree table.
    pub fn get_out_degrees(&self) -> (r: DegreeTable)
        ensures
            degree_entries(r) == self.out_degrees(),
    {
        self.out_degree.copy()
    }

    /// The degrees that a hub score is made of: `(node, in_degree, out_degree)`
    /// for every node with at least one in-edge, by ascending node id. The score
    /// of such a node is `in_degree * (1 + ln(1 + out_degree))`; nodes without
    /// in-edges score zero and are left out.
    pub fn hub_score_inputs(&self) -> (r: Vec<(usize, usize, usize)>)
        ensures
            forall|i: int, j: int| 0 <= i < j < r@.len() ==> r@[i].0 < r@[j].0,
            forall|i: int|
                0 <= i < r@.len() ==> (#[trigger] r@[i]).0 < self.node_count()
                    && r@[i].1 == self.in_degree_of(r@[i].0) && r@[i].1 > 0
                    && r@[i].2 == self.out_degree_of(r@[i].0),
            forall|v: usize|
                v < self.node_count() && #[trigger] self.in_degree_of(v) > 0
                    ==> exists|i: int| 0 <= i < r@.len() && r@[i].0 == v,
    {
        let mut out: Vec<(usize, usize, usize)> = Vec::new();
        let mut v: usize = 0;
        while v < self.num_nodes
            invariant
                v <= self.num_nodes,
                forall|i: int, j: int| 0 <= i < j < out@.len() ==> out@[i].0 < out@[j].0,
                forall|i: int|
                    0 <= i < out@.len() ==> (#[trigger] out@[i]).0 < v
                        && out@[i].1 == self.in_degree_of(out@[i].0) && out@[i].1 > 0
                        && out@[i].2 == self.out_degree_of(out@[i].0),
                forall|u: usize|
                    u < v && #[trigger] self.in_degree_of(u) > 0
                        ==> exists|i: int| 0 <= i < out@.len() && out@[i].0 == u,
            decreases self.num_nodes - v,
        {
            let d = self.in_degree(v);
            let ghost before = out@;
            if d > 0 {
                let o = self.out_degree(v);
                out.push((v, d, o));
                assert(out@[out@.len() - 1].0 == v);
            }
            assert forall|u: usize| u < v + 1 && #[trigger] self.in_degree_of(u) > 0
                implies exists|i: int| 0 <= i < out@.len() && out@[i].0 == u by {
                if u < v {
                    let k = choose|k: int| 0 <= k < before.len() && before[k].0 == u;
                    assert(out@[k] == before[k]);
                }
            }
            v = v + 1;
        }
        out
    }

    /// Summary of the in-degree distribution.
    pub fn get_hub_stats(&self) -> (r: HubStats)
        requires
            self.wf(),
        ensures
            r.total_nodes == self.node_count(),
            r.nodes_with_imports == nodes_at_least(self.in_degrees(), self.node_count(), 1),
            r.total_hubs == nodes_at_least(self.in_degrees(), self.node_count(), 3),
            r.critical_hubs == nodes_at_least(self.in_degrees(), self.node_count(), 8),
            r.max_in_degree == max_degree(self.in_degrees(), self.node_count()),
            r.total_in_degree == degree_sum(self.in_degrees(), self.node_count()),
    {
        let (max_in_degree, total_in_degree) = max_and_sum(&self.in_degree, self.num_nodes);
        HubStats {
            total_nodes: self.num_nodes,
            nodes_with_imports: count_at_least(&self.in_degree, self.num_nodes, 1),
            total_hubs: count_at_least(&self.in_degree, self.num_nodes, 3),
            critical_hubs: count_at_least(&self.in_degree, self.num_nodes, 8),
            max_in_degree,
            total_in_degree,
        }
    }

    /// Summary of both degree distributions, see [`GraphStats`].
    fn graph_stats(&self, total_edges: usize) -> (r: GraphStats)
        requires
            self.wf(),
        ensures
            r.total_edges == total_edges,
            r.total_in_degree == degree_sum(self.in_degrees(), self.node_count()),
            r.total_out_degree == degree_sum(self.out_degrees(), self.node_count()),
            r.max_in_degree == max_degree(self.in_degrees(), self.node_count()),
            r.max_out_degree == max_degree(self.out_degrees(), self.node_count()),
            r.isolated_nodes == isolated_count(self.in_degrees(), self.out_degrees(), self.node_count()),
    {
        let (max_in_degree, total_in_degree) = max_and_sum(&self.in_degree, self.num_nodes);
        let (max_out_degree, total_out_degree) = max_and_sum(&self.out_degree, self.num_nodes);
        let mut isolated: usize = 0;
        let mut v: usize = 0;
        while v < self.num_nodes
            invariant
                v <= self.num_nodes,
                isolated <= v,
                isolated == isolated_count(self.in_degrees(), self.out_degrees(), v as nat),
            decreases self.num_nodes - v,
        {
            if self.in_degree(v) == 0 && self.out_degree(v) == 0 {
                isolated = isolated + 1;
            }
            v = v + 1;
        }
        GraphStats {
            total_edges,
            total_in_degree,
            total_out_degree,
            max_in_degree,
            max_out_degree,
            isolated_nodes: isolated,
        }
    }

    /// Tabulates the degrees of the edges whose endpoints are both below
    /// `num_nodes`; other edges are dropped.
    pub fn new(num_nodes: usize, edges: &[(usize, usize)]) -> (r: HubDetector)
        ensures
            r.wf(),
            r.node_count() == num_nodes,
            holds_counts(r.in_degrees(), |v: usize| in_count(edges@, num_nodes as nat, v)),
            holds_counts(r.out_degrees(), |v: usize| out_count(edges@, num_nodes as nat, v)),
    {
        let mut in_degree = DegreeTable::new();
        let mut out_degree = DegreeTable::new();
        let ghost n = num_nodes as nat;
        let mut i: usize = 0;
        while i < edges.len()
            invariant
                i <= edges@.len(),
                n == num_nodes as nat,
                holds_counts(degree_entries(in_degree), |v: usize| in_count(edges@.subrange(0, i as int), n, v)),
                holds_counts(degree_entries(out_degree), |v: usize| out_count(edges@.subrange(0, i as int), n, v)),
                forall|v: usize| #[trigger] degree_entries(in_degree).contains_key(v) ==> v < num_nodes,
                forall|v: usize| #[trigger] degree_entries(out_degree).contains_key(v) ==> v < num_nodes,
                forall|v: usize| #[trigger] in_count(edges@.subrange(0, i as int), n, v) <= i,
                forall|v: usize| #[trigger] out_count(edges@.subrange(0, i as int), n, v) <= i,
            decreases edges.len() - i,
        {
            let (src, tgt) = edges[i];
            let ghost pre = edges@.subrange(0, i as int);
            let ghost next = edges@.subrange(0, i + 1);
            assert(next.drop_last() == pre);
            assert(next.last() == (src, tgt));
            let ghost in_old = degree_entries(in_degree);
            let ghost out_old = degree_entries(out_degree);
            assert forall|v: usize| in_count(next, n, v) <= i + 1 && out_count(next, n, v) <= i + 1 by {
                assert(in_count(pre, n, v) <= i);
                assert(out_count(pre, n, v) <= i);
            }
            if src < num_nodes && tgt < num_nodes {
                let o = match out_degree.lookup(src) { Some(c) => c, None => 0 };
                assert(o <= i) by { assert(out_count(pre, n, src) <= i); }
                out_degree.insert(src, o + 1);
                let d = match in_degree.lookup(tgt) { Some(c) => c, None => 0 };
                assert(d <= i) by { assert(in_count(pre, n, tgt) <= i); }
                in_degree.insert(tgt, d + 1);
                assert(d == in_count(pre, n, tgt)) by {
                    assert(in_old.contains_key(tgt) <==> in_count(pre, n, tgt) > 0);
                }
                assert(o == out_count(pre, n, src)) by {
                    assert(out_old.contains_key(src) <==> out_count(pre, n, src) > 0);
                }
            }
            assert forall|v: usize| (#[trigger] degree_entries(in_degree).contains_key(v) <==> in_count(next, n, v) > 0)
                && (degree_entries(in_degree).contains_key(v) ==> degree_entries(in_degree)[v] == in_count(next, n, v)) by {
                assert(in_count(next, n, v) == in_count(pre, n, v) + if edge_accepted((src, tgt), n) && tgt == v { 1nat } else { 0nat });
                assert(in_old.contains_key(v) <==> in_count(pre, n, v) > 0);
                if in_old.contains_key(v) {
                    assert(in_old[v] == in_count(pre, n, v));
                }
            }
            assert forall|v: usize| (#[trigger] degree_entries(out_degree).contains_key(v) <==> out_count(next, n, v) > 0)
                && (degree_entries(out_degree).contains_key(v) ==> degree_entries(out_degree)[v] == out_count(next, n, v)) by {
                assert(out_count(next, n, v) == out_count(pre, n, v) + if edge_accepted((src, tgt), n) && src == v { 1nat } else { 0nat });
                assert(out_old.contains_key(v) <==> out_count(pre, n, v) > 0);
                if out_old.contains_key(v) {
                    assert(out_old[v] == out_count(pre, n, v));
                }
            }
            i = i + 1;
        }
        assert(edges@.subrange(0, edges@.len() as int) == edges@);
        proof {
            lemma_degree_sum(degree_entries(in_degree), edges@, n, n, false);
            lemma_degree_sum(degree_entries(out_degree), edges@, n, n, true);
            lemma_ends_below_len(edges@, n, n, false);
            lemma_ends_below_len(edges@, n, n, true);
        }
        HubDetector { num_nodes, in_degree, out_degree }
    }
}

/// The hubs of a graph: every node whose in-degree (the number of accepted
/// edges entering it) is at least `threshold`, as `(node, in_degree)`, highest
/// in-degree first and equal in-degrees by ascending node id.
pub fn detect_hubs(num_nodes: usize, edges: &[(usize, usize)], threshold: usize) -> (r: Vec<(usize, usize)>)
    ensures
        r@.len() == nodes_at_least(degrees_from(edges@, num_nodes as nat, false), num_nodes as nat, threshold as nat),
        forall|i: int, j: int| 0 <= i < j < r@.len() ==> ranks_before(r@[i], r@[j]),
        forall|i: int|
            0 <= i < r@.len() ==> (#[trigger] r@[i]).0 < num_nodes
                && r@[i].1 == in_count(edges@, num_nodes as nat, r@[i].0) && r@[i].1 >= threshold,
        forall|v: usize|
            v < num_nodes && #[trigger] in_count(edges@, num_nodes as nat, v) >= threshold
                ==> exists|i: int| 0 <= i < r@.len() && r@[i].0 == v,
{
    let detector = HubDetector::new(num_nodes, edges);
    let r = detector.find_hubs(threshold);
    let ghost m = detector.in_degrees();
    proof {
        lemma_degrees_from(m, edges@, num_nodes as nat, false);
    }
    assert forall|v: usize| #[trigger] detector.in_degree_of(v) == in_count(edges@, num_nodes as nat, v) by {
        assert(m.contains_key(v) <==> in_count(edges@, num_nodes as nat, v) > 0);
    }
    assert forall|v: usize| v < num_nodes && #[trigger] in_count(edges@, num_nodes as nat, v) >= threshold
        implies exists|i: int| 0 <= i < r@.len() && r@[i].0 == v by {
        assert(detector.in_degree_of(v) >= threshold);
    }
    r
}

/// Degree statistics of the graph on `num_nodes` nodes with the given edges.
/// `total_edges` counts the edge list as given; the degrees count the
/// accepted edges only.
pub fn compute_graph_stats(num_nodes: usize, edges: &[(usize, usize)]) -> (r: GraphStats)
    ensures
        r.total_edges == edges@.len(),
        r.total_in_degree == degree_sum(degrees_from(edges@, num_nodes as nat, false), num_nodes as nat),
        r.total_out_degree == degree_sum(degrees_from(edges@, num_nodes as nat, true), num_nodes as nat),
        r.max_in_degree == max_degree(degrees_from(edges@, num_nodes as nat, false), num_nodes as nat),
        r.max_out_degree == max_degree(degrees_from(edges@, num_nodes as nat, true), num_nodes as nat),
        r.isolated_nodes == isolated_count(degrees_from(edges@, num_nodes as nat, false),
            degrees_from(edges@, num_nodes as nat, true), num_nodes as nat),
{
    let detector = HubDetector::new(num_nodes, edges);
    proof {
        lemma_degrees_from(detector.in_degrees(), edges@, num_nodes as nat, false);
        lemma_degrees_from(detector.out_degrees(), edges@, num_nodes as nat, true);
    }
    detector.graph_stats(edges.len())
}

/// The degree table of an edge list: each node with a non-zero count, mapped
/// to its count of accepted edges that leave it (`source`) or enter it.
pub open spec fn degrees_from(edges: Seq<(usize, usize)>, n: nat, source: bool) -> Map<usize, usize> {
    Map::new(|v: usize| end_count(edges, n, v, source) > 0, |v: usize| end_count(edges, n, v, source) as usize)
}

proof fn lemma_degrees_from(m: Map<usize, usize>, edges: Seq<(usize, usize)>, n: nat, source: bool)
    requires
        holds_counts(m, |v: usize| end_count(edges, n, v, source)),
    ensures
        m == degrees_from(edges, n, source),
{
    assert forall|v: usize| #[trigger] m.contains_key(v) implies m[v] == degrees_from(edges, n, source)[v] by {
        assert(m.contains_key(v) <==> end_count(edges, n, v, source) > 0);
    }
    assert forall|v: usize| #[trigger] degrees_from(edges, n, source).contains_key(v) implies m.contains_key(v) by {
        assert(m.contains_key(v) <==> end_count(edges, n, v, source) > 0);
    }
    assert(m =~= degrees_from(edges, n, source));
}

/// Number of accepted edges of `edges`.
pub open spec fn accepted_count(edges: Seq<(usize, usize)>, n: nat) -> nat
    decreases edges.len(),
{
    if edges.len() == 0 {
        0
    } else {
        accepted_count(edges.drop_last(), n) + if edge_accepted(edges.last(), n) { 1nat } else { 0nat }
    }
}

proof fn lemma_ends_below_all(edges: Seq<(usize, usize)>, n: nat, source: bool)
    ensures
        ends_below(edges, n, n, source) == accepted_count(edges, n),
    decreases edges.len(),
{
    if edges.len() > 0 {
        lemma_ends_below_all(edges.drop_last(), n, source);
    }
}

proof fn lemma_end_count_len(edges: Seq<(usize, usize)>, n: nat, v: usize, source: bool)
    ensures
        end_count(edges, n, v, source) <= edges.len(),
    decreases edges.len(),
{
    if edges.len() > 0 {
        lemma_end_count_len(edges.drop_last(), n, v, source);
    }
}

proof fn lemma_degrees_from_counts(edges: Seq<(usize, usize)>, n: nat, source: bool)
    requires
        edges.len() <= usize::MAX,
    ensures
        holds_counts(degrees_from(edges, n, source), |v: usize| end_count(edges, n, v, source)),
{
    assert forall|v: usize| #[trigger] degrees_from(edges, n, source).contains_key(v)
        implies degrees_from(edges, n, source)[v] == end_count(edges, n, v, source) by {
        lemma_end_count_len(edges, n, v, source);
    }
}

/// The in-degrees and the out-degrees of a graph each sum to the number of
/// accepted edges.
pub proof fn lemma_degree_sums(edges: Seq<(usize, usize)>, n: nat)
    requires
        n <= usize::MAX,
        edges.len() <= usize::MAX,
    ensures
        degree_sum(degrees_from(edges, n, false), n) == accepted_count(edges, n),
        degree_sum(degrees_from(edges, n, true), n) == accepted_count(edges, n),
{
    lemma_degrees_from_counts(edges, n, false);
    lemma_degrees_from_counts(edges, n, true);
    lemma_degree_sum(degrees_from(edges, n, false), edges, n, n, false);
    lemma_degree_sum(degrees_from(edges, n, true), edges, n, n, true);
    lemma_ends_below_all(edges, n, false);
    lemma_ends_below_all(edges, n, true);
}

} // verus!
