//! The mathematical model of a graph and of a single-source distance table,
//! with the laws that every such table obeys.
use vstd::prelude::*;

verus! {

/// A graph as a map from vertex to its ordered list of `(neighbor, weight)` entries.
pub type WeightedGraph = Map<u32, Seq<(u32, u32)>>;

/// The entries leaving `v`; a vertex without an entry has none.
pub open spec fn out_edges(g: WeightedGraph, v: u32) -> Seq<(u32, u32)> {
    if g.contains_key(v) {
        g[v]
    } else {
        Seq::empty()
    }
}

/// The graph an unweighted adjacency map stands for: every entry weighs 1.
pub open spec fn unit_graph(adj: Map<u32, Vec<u32>>) -> WeightedGraph {
    Map::new(|v: u32| adj.contains_key(v), |v: u32| adj[v]@.map_values(|w: u32| (w, 1u32)))
}

/// The graph a weighted adjacency map stands for.
pub open spec fn weighted_graph(adj: Map<u32, Vec<(u32, u32)>>) -> WeightedGraph {
    Map::new(|v: u32| adj.contains_key(v), |v: u32| adj[v]@)
}

/// Every neighbor named in the graph is itself a vertex of it.
pub open spec fn closed(g: WeightedGraph) -> bool {
    forall|v: u32, j: int|
        0 <= j < out_edges(g, v).len() ==> g.contains_key(#[trigger] out_edges(g, v)[j].0)
}

/// Every entry `(w, c)` of `v` is mirrored by an entry `(v, c)` of `w`.
pub open spec fn symmetric(g: WeightedGraph) -> bool {
    forall|v: u32, j: int|
        0 <= j < out_edges(g, v).len() ==> out_edges(g, (#[trigger] out_edges(g, v)[j]).0).contains(
            (v, out_edges(g, v)[j].1),
        )
}

/// `p` lists the vertices of a walk and `ix[i]` the entry of `p[i]` taken to reach `p[i + 1]`.
pub open spec fn is_walk(g: WeightedGraph, p: Seq<u32>, ix: Seq<int>) -> bool {
    &&& p.len() == ix.len() + 1
    &&& forall|i: int|
        0 <= i < ix.len() ==> 0 <= #[trigger] ix[i] < out_edges(g, p[i]).len() && out_edges(
            g,
            p[i],
        )[ix[i]].0 == p[i + 1]
}

/// The weight of the `i`-th step of a walk.
pub open spec fn step_cost(g: WeightedGraph, p: Seq<u32>, ix: Seq<int>, i: int) -> int {
    out_edges(g, p[i])[ix[i]].1 as int
}

/// The total weight of the first `n` steps of a walk.
pub open spec fn cost_upto(g: WeightedGraph, p: Seq<u32>, ix: Seq<int>, n: nat) -> int
    decreases n,
{
    if n == 0 {
        0
    } else {
        cost_upto(g, p, ix, (n - 1) as nat) + step_cost(g, p, ix, n - 1)
    }
}

pub open spec fn walk_cost(g: WeightedGraph, p: Seq<u32>, ix: Seq<int>) -> int {
    cost_upto(g, p, ix, ix.len())
}

/// Some walk from `s` to `v` weighs exactly `c`.
pub open spec fn reaches(g: WeightedGraph, s: u32, v: u32, c: int) -> bool {
    exists|p: Seq<u32>, ix: Seq<int>|
        is_walk(g, p, ix) && p[0] == s && p.last() == v && walk_cost(g, p, ix) == c
}

/// `d` is the shortest-distance table of `g` from `s`: it covers the vertices of
/// `g` and `s`, holds 0 at `s`, no entry can be improved along an edge, and every
/// entry below `u32::MAX` is the weight of a walk from `s` (`u32::MAX` marks an
/// unreachable vertex).
pub open spec fn is_distance_table(g: WeightedGraph, s: u32, d: Map<u32, u32>) -> bool {
    &&& d.dom() == g.dom().insert(s)
    &&& d[s] == 0
    &&& forall|v: u32, j: int|
        d.contains_key(v) && 0 <= j < out_edges(g, v).len() ==> d[(#[trigger] out_edges(
            g,
            v,
        )[j]).0] <= d[v] + out_edges(g, v)[j].1
    &&& forall|v: u32| #[trigger]
        d.contains_key(v) && d[v] < u32::MAX ==> reaches(g, s, v, d[v] as int)
}

/// Extending a walk by one entry adds that entry's weight.
pub proof fn lemma_walk_push(g: WeightedGraph, p: Seq<u32>, ix: Seq<int>, j: int)
    requires
        is_walk(g, p, ix),
        0 <= j < out_edges(g, p.last()).len(),
    ensures
        is_walk(g, p.push(out_edges(g, p.last())[j].0), ix.push(j)),
        walk_cost(g, p.push(out_edges(g, p.last())[j].0), ix.push(j)) == walk_cost(g, p, ix)
            + out_edges(g, p.last())[j].1,
{
    let p2 = p.push(out_edges(g, p.last())[j].0);
    let ix2 = ix.push(j);
    assert forall|i: int| 0 <= i < ix2.len() implies 0 <= #[trigger] ix2[i] < out_edges(
        g,
        p2[i],
    ).len() && out_edges(g, p2[i])[ix2[i]].0 == p2[i + 1] by {
        if i < ix.len() {
            assert(ix[i] == ix2[i]);
        }
    }
    lemma_cost_prefix(g, p, ix, p2, ix2, ix.len());
}

proof fn lemma_cost_prefix(
    g: WeightedGraph,
    p: Seq<u32>,
    ix: Seq<int>,
    p2: Seq<u32>,
    ix2: Seq<int>,
    n: nat,
)
    requires
        n <= ix.len(),
        n <= ix2.len(),
        forall|i: int| 0 <= i < n ==> p[i] == p2[i] && ix[i] == ix2[i],
    ensures
        cost_upto(g, p, ix, n) == cost_upto(g, p2, ix2, n),
    decreases n,
{
    if n > 0 {
        lemma_cost_prefix(g, p, ix, p2, ix2, (n - 1) as nat);
    }
}

/// Along a walk from `s`, a table that no edge improves stays below the walk's
/// running weight.
proof fn lemma_table_below_walk(
    g: WeightedGraph,
    s: u32,
    d: Map<u32, u32>,
    p: Seq<u32>,
    ix: Seq<int>,
    n: nat,
)
    requires
        closed(g),
        is_distance_table(g, s, d),
        is_walk(g, p, ix),
        p[0] == s,
        n <= ix.len(),
    ensures
        d.contains_key(p[n as int]),
        d[p[n as int]] <= cost_upto(g, p, ix, n),
    decreases n,
{
    if n > 0 {
        let i = n - 1;
        lemma_table_below_walk(g, s, d, p, ix, i as nat);
        let e = out_edges(g, p[i])[ix[i]];
        assert(g.contains_key(e.0));
    }
}

/// No walk from `s` to `v` weighs less than the table's entry for `v`.
pub proof fn lemma_table_is_lower_bound(
    g: WeightedGraph,
    s: u32,
    d: Map<u32, u32>,
    p: Seq<u32>,
    ix: Seq<int>,
)
    requires
        closed(g),
        is_distance_table(g, s, d),
        is_walk(g, p, ix),
        p[0] == s,
    ensures
        d.contains_key(p.last()),
        d[p.last()] <= walk_cost(g, p, ix),
{
    lemma_table_below_walk(g, s, d, p, ix, ix.len());
}

/// A graph has one distance table per start vertex: two runs, by whatever
/// method, that both meet the definition agree on every vertex.
pub proof fn lemma_table_unique(g: WeightedGraph, s: u32, d1: Map<u32, u32>, d2: Map<u32, u32>)
    requires
        closed(g),
        is_distance_table(g, s, d1),
        is_distance_table(g, s, d2),
    ensures
        d1 == d2,
{
    assert forall|v: u32| d1.contains_key(v) implies d1[v] == d2[v] by {
        if d1[v] < u32::MAX {
            lemma_table_below_reach(g, s, d1, d2, v);
        }
        if d2[v] < u32::MAX {
            lemma_table_below_reach(g, s, d2, d1, v);
        }
    }
    assert(d1 =~= d2);
}

proof fn lemma_table_below_reach(g: WeightedGraph, s: u32, d1: Map<u32, u32>, d2: Map<u32, u32>, v: u32)
    requires
        closed(g),
        is_distance_table(g, s, d1),
        is_distance_table(g, s, d2),
        d1.contains_key(v),
        d1[v] < u32::MAX,
    ensures
        d2[v] <= d1[v],
{
    assert(d1.contains_key(v) && d1[v] < u32::MAX);
    let (p, ix) = choose|p: Seq<u32>, ix: Seq<int>|
        is_walk(g, p, ix) && p[0] == s && p.last() == v && walk_cost(g, p, ix) == d1[v];
    lemma_table_is_lower_bound(g, s, d2, p, ix);
}

/// Walking a walk backwards in a symmetric graph: the table rooted at its end
/// stays below the weight of the rest of the walk.
proof fn lemma_table_below_reverse(
    g: WeightedGraph,
    t: u32,
    d: Map<u32, u32>,
    p: Seq<u32>,
    ix: Seq<int>,
    n: nat,
)
    requires
        closed(g),
        symmetric(g),
        is_distance_table(g, t, d),
        is_walk(g, p, ix),
        p.last() == t,
        n <= ix.len(),
    ensures
        d.contains_key(p[n as int]),
        d[p[n as int]] <= walk_cost(g, p, ix) - cost_upto(g, p, ix, n),
    decreases ix.len() - n,
{
    if n < ix.len() {
        lemma_table_below_reverse(g, t, d, p, ix, n + 1);
        let e = out_edges(g, p[n as int])[ix[n as int]];
        assert(out_edges(g, e.0).contains((p[n as int], e.1)));
        let k = choose|k: int| 0 <= k < out_edges(g, e.0).len() && out_edges(g, e.0)[k] == (p[n as int], e.1);
        assert(out_edges(g, e.0)[k] == (p[n as int], e.1));
        assert(g.contains_key(out_edges(g, e.0)[k].0));
    }
}

/// In an undirected (symmetric) graph the distance from `u` to `v` equals the
/// distance from `v` to `u`, unreachable pairs included.
pub proof fn lemma_table_symmetric(
    g: WeightedGraph,
    u: u32,
    v: u32,
    du: Map<u32, u32>,
    dv: Map<u32, u32>,
)
    requires
        closed(g),
        symmetric(g),
        is_distance_table(g, u, du),
        is_distance_table(g, v, dv),
        du.contains_key(v),
        dv.contains_key(u),
    ensures
        du[v] == dv[u],
{
    if du[v] < u32::MAX {
        lemma_reverse_bound(g, u, v, du, dv);
    }
    if dv[u] < u32::MAX {
        lemma_reverse_bound(g, v, u, dv, du);
    }
}

proof fn lemma_reverse_bound(g: WeightedGraph, u: u32, v: u32, du: Map<u32, u32>, dv: Map<u32, u32>)
    requires
        closed(g),
        symmetric(g),
        is_distance_table(g, u, du),
        is_distance_table(g, v, dv),
        du.contains_key(v),
        du[v] < u32::MAX,
    ensures
        dv[u] <= du[v],
{
    assert(du.contains_key(v) && du[v] < u32::MAX);
    let (p, ix) = choose|p: Seq<u32>, ix: Seq<int>|
        is_walk(g, p, ix) && p[0] == u && p.last() == v && walk_cost(g, p, ix) == du[v];
    lemma_table_below_reverse(g, v, dv, p, ix, 0);
}

/// On a graph whose every entry weighs 1, the breadth-first table and the
/// Dijkstra table from the same start agree on every vertex.
pub proof fn lemma_unit_weights_agree(
    adj: Map<u32, Vec<u32>>,
    weighted: Map<u32, Vec<(u32, u32)>>,
    start: u32,
    bfs_dists: Map<u32, u32>,
    dijkstra_dists: Map<u32, u32>,
)
    requires
        weighted_graph(weighted) == unit_graph(adj),
        closed(unit_graph(adj)),
        is_distance_table(unit_graph(adj), start, bfs_dists),
        is_distance_table(weighted_graph(weighted), start, dijkstra_dists),
    ensures
        bfs_dists == dijkstra_dists,
{
    lemma_table_unique(unit_graph(adj), start, bfs_dists, dijkstra_dists);
}

} // verus!
