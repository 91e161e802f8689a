//! Single-source shortest distances (breadth-first search and Dijkstra's
//! algorithm) and the sampled all-pairs harness built on them.
use crate::graph_reader::vertex_list;
use crate::min_heap::MinHeap;
use crate::paths::{
    WeightedGraph,
    closed, is_distance_table, is_walk, lemma_walk_push, out_edges, reaches, unit_graph, walk_cost,
    weighted_graph,
};
use std::collections::HashMap;
use std::collections::VecDeque;
use vstd::prelude::*;
use vstd::std_specs::iter::IteratorSpec;

verus! {

broadcast use {vstd::std_specs::hash::group_hash_axioms, vstd::multiset::group_multiset_axioms};

/// One computed shortest distance between two distinct sampled vertices.
#[derive(Clone, Copy, Debug, PartialEq, Eq, Structural)]
pub struct DistancePair {
    pub node_1: u32,
    pub node_2: u32,
    pub distance: u32,
}

/// Requests that the library refuses.
#[derive(Clone, Copy, Debug, PartialEq, Eq, Structural)]
pub enum GraphError {
    /// The sample asked for is larger than the vertex set.
    OversizedSample,
    /// Statistics were asked of no distances at all.
    EmptyAggregationInput,
}

/// The pairs `(s[i], s[j])` for one `i` and every later `j`, in order.
pub open spec fn row(s: Seq<u32>, i: int) -> Seq<(u32, u32)> {
    Seq::new((s.len() - i - 1) as nat, |t: int| (s[i], s[i + 1 + t]))
}

/// The rows of the first `n` sample positions, one after another.
pub open spec fn pairs_upto(s: Seq<u32>, n: nat) -> Seq<(u32, u32)>
    decreases n,
{
    if n == 0 {
        Seq::empty()
    } else {
        pairs_upto(s, (n - 1) as nat) + row(s, n - 1)
    }
}

/// Every pair `(s[i], s[j])` with `i < j`, ordered by `i`, then by `j`.
pub open spec fn sample_pairs(s: Seq<u32>) -> Seq<(u32, u32)> {
    pairs_upto(s, s.len())
}

/// The vertices of each record, in order.
pub open spec fn pair_nodes(r: Seq<DistancePair>) -> Seq<(u32, u32)> {
    r.map_values(|p: DistancePair| (p.node_1, p.node_2))
}

/// `x` is the entry for `v` of the distance table of `g` rooted at `s`
/// (that table is unique: see `lemma_table_unique`).
pub open spec fn table_entry(g: WeightedGraph, s: u32, v: u32, x: u32) -> bool {
    exists|d: Map<u32, u32>| is_distance_table(g, s, d) && d[v] == x
}

/// `r` holds one record per pair of `sample_pairs(s)`, in that order, each
/// with the shortest distance of `g` between its two vertices.
pub open spec fn sampled_distances(g: WeightedGraph, s: Seq<u32>, r: Seq<DistancePair>) -> bool {
    &&& pair_nodes(r) == sample_pairs(s)
    &&& forall|t: int|
        0 <= t < r.len() ==> table_entry(g, (#[trigger] r[t]).node_1, r[t].node_2, r[t].distance)
}

/// The sum of the entries of `d` over the vertex set `vs`.
spec fn potential(d: Map<u32, u32>, vs: Set<u32>) -> int
    decreases vs.len(),
    when vs.finite()
{
    if vs.len() == 0 {
        0
    } else {
        let k = vs.choose();
        d[k] + potential(d, vs.remove(k))
    }
}

proof fn lemma_potential_insert(d: Map<u32, u32>, vs: Set<u32>, k: u32, x: u32)
    requires
        vs.finite(),
    ensures
        potential(d.insert(k, x), vs) == potential(d, vs) + if vs.contains(k) {
            x - d[k]
        } else {
            0
        },
        potential(d, vs) >= 0,
    decreases vs.len(),
{
    if vs.len() > 0 {
        let c = vs.choose();
        lemma_potential_insert(d, vs.remove(c), k, x);
    }
}

/// Reads a recorded distance.
fn lookup(d: &HashMap<u32, u32>, k: u32) -> (r: u32)
    requires
        d@.contains_key(k),
    ensures
        r == d@[k],
{
    match d.get(&k) {
        Some(x) => *x,
        None => 0,
    }
}

/// A table that holds `u32::MAX` ("unreached") for every vertex of the
/// adjacency map and 0 for `start_node`.
fn init_hashmap<V>(adjacency_list: &HashMap<u32, V>, start_node: u32) -> (dists: HashMap<
    u32,
    u32,
>)
    ensures
        dists@.dom() == adjacency_list@.dom().insert(start_node),
        dists@[start_node] == 0,
        forall|v: u32| #[trigger] dists@.contains_key(v) && v != start_node ==> dists@[v] == u32::MAX,
{
    let mut dists: HashMap<u32, u32> = HashMap::new();
    let ghost ks = adjacency_list.keys().remaining().unref();
    for node in it: adjacency_list.keys()
        invariant
            it.seq().unref() == ks,
            ks.to_set() == adjacency_list@.dom(),
            dists@.dom() == ks.take(it.index()).to_set(),
            forall|v: u32| #[trigger] dists@.contains_key(v) ==> dists@[v] == u32::MAX,
    {
        dists.insert(*node, u32::MAX);
        assert(ks.take(it.index() + 1) =~= ks.take(it.index()) + seq![*node]);
        proof {
            Seq::lemma_to_set_insert_commutes(ks.take(it.index()), *node);
        }
        assert(dists@.dom() =~= ks.take(it.index() + 1).to_set());
    }
    assert(ks.take(ks.len() as int) =~= ks);
    dists.insert(start_node, 0);
    assert(dists@.dom() =~= adjacency_list@.dom().insert(start_node));
    dists
}

/// Breadth-first search from `start_node`: the hop distance to every vertex
/// of the adjacency map, `u32::MAX` where none is reachable.
pub fn breadth_first_search(adjacency_list: &HashMap<u32, Vec<u32>>, start_node: u32) -> (dists:
    HashMap<u32, u32>)
    requires
        closed(unit_graph(adjacency_list@)),
    ensures
        is_distance_table(unit_graph(adjacency_list@), start_node, dists@),
{
    let ghost g = unit_graph(adjacency_list@);
    let ghost verts = g.dom().insert(start_node);
    assert(g.dom() =~= adjacency_list@.dom());
    let mut dists = init_hashmap(adjacency_list, start_node);
    let mut queue: VecDeque<u32> = VecDeque::new();
    queue.push_back(start_node);
    proof {
        assert forall|v: u32| dists@.contains_key(v) && dists@[v] < u32::MAX implies reaches(
            g,
            start_node,
            v,
            dists@[v] as int,
        ) by {
            let p = seq![start_node];
            let ix = Seq::<int>::empty();
            assert(is_walk(g, p, ix));
            assert(p.last() == v);
        }
        lemma_potential_insert(dists@, verts, start_node, 0);
        assert(queue@[0] == start_node);
    }
    while queue.len() > 0
        invariant
            g == unit_graph(adjacency_list@),
            closed(g),
            verts == g.dom().insert(start_node),
            verts.finite(),
            dists@.dom() == verts,
            dists@[start_node] == 0,
            forall|i: int|
                0 <= i < queue@.len() ==> verts.contains(#[trigger] queue@[i]) && dists@[queue@[i]]
                    < u32::MAX,
            forall|v: u32, j: int|
                dists@.contains_key(v) && 0 <= j < out_edges(g, v).len() && !queue@.contains(v)
                    ==> dists@[(#[trigger] out_edges(g, v)[j]).0] <= dists@[v] + out_edges(g, v)[j].1,
            forall|v: u32| #[trigger]
                dists@.contains_key(v) && dists@[v] < u32::MAX ==> reaches(
                    g,
                    start_node,
                    v,
                    dists@[v] as int,
                ),
        decreases 2 * potential(dists@, verts) + queue@.len(),
    {
        proof {
            lemma_potential_insert(dists@, verts, start_node, 0);
        }
        let ghost measure0 = 2 * potential(dists@, verts) + queue@.len();
        let ghost q0 = queue@;
        let u = queue.pop_front().unwrap();
        assert(q0[0] == u);
        assert forall|v: u32| v != u && !queue@.contains(v) implies !q0.contains(v) by {
            if q0.contains(v) {
                let k = choose|k: int| 0 <= k < q0.len() && q0[k] == v;
                assert(queue@[k - 1] == v);
            }
        }
        let du = lookup(&dists, u);
        match adjacency_list.get(&u) {
            Some(list) => {
                assert(out_edges(g, u) == list@.map_values(|w: u32| (w, 1u32)));
                let mut i: usize = 0;
                while i < list.len()
                    invariant
                        g == unit_graph(adjacency_list@),
                        closed(g),
                        verts == g.dom().insert(start_node),
                        verts.finite(),
                        dists@.dom() == verts,
                        dists@[start_node] == 0,
                        out_edges(g, u) == list@.map_values(|w: u32| (w, 1u32)),
                        verts.contains(u),
                        dists@[u] == du,
                        du < u32::MAX,
                        i <= list.len(),
                        forall|k: int|
                            0 <= k < queue@.len() ==> verts.contains(#[trigger] queue@[k])
                                && dists@[queue@[k]] < u32::MAX,
                        forall|v: u32, j: int|
                            dists@.contains_key(v) && 0 <= j < out_edges(g, v).len() && v != u
                                && !queue@.contains(v) ==> dists@[(#[trigger] out_edges(
                                g,
                                v,
                            )[j]).0] <= dists@[v] + out_edges(g, v)[j].1,
                        forall|j: int|
                            0 <= j < i ==> dists@[(#[trigger] out_edges(g, u)[j]).0] <= dists@[u]
                                + out_edges(g, u)[j].1,
                        forall|v: u32| #[trigger]
                            dists@.contains_key(v) && dists@[v] < u32::MAX ==> reaches(
                                g,
                                start_node,
                                v,
                                dists@[v] as int,
                            ),
                        2 * potential(dists@, verts) + queue@.len() < measure0,
                    decreases list.len() - i,
                {
                    let w = list[i];
                    assert(out_edges(g, u)[i as int] == (w, 1u32));
                    assert(g.contains_key(out_edges(g, u)[i as int].0));
                    let new_dist = du + 1;
                    let dw = lookup(&dists, w);
                    if new_dist < dw {
                        proof {
                            let (p, ix) = choose|p: Seq<u32>, ix: Seq<int>|
                                is_walk(g, p, ix) && p[0] == start_node && p.last() == u
                                    && walk_cost(g, p, ix) == du as int;
                            lemma_walk_push(g, p, ix, i as int);
                            assert(p.push(w)[0] == start_node);
                            lemma_potential_insert(dists@, verts, w, new_dist);
                        }
                        let ghost qa = queue@;
                        dists.insert(w, new_dist);
                        queue.push_back(w);
                        proof {
                            assert forall|v: u32, j: int|
                                dists@.contains_key(v) && 0 <= j < out_edges(g, v).len() && v != u
                                    && !queue@.contains(v) implies dists@[(#[trigger] out_edges(
                                g,
                                v,
                            )[j]).0] <= dists@[v] + out_edges(g, v)[j].1 by {
                                assert(queue@[queue@.len() - 1] == w);
                                if v != w {
                                    assert forall|k: int| 0 <= k < qa.len() implies qa[k] != v by {
                                        assert(queue@[k] == qa[k]);
                                    }
                                }
                            }
                        }
                    }
                    i = i + 1;
                }
            },
            None => {
                assert(out_edges(g, u).len() == 0);
            },
        }
        proof {
            lemma_potential_insert(dists@, verts, start_node, 0);
        }
    }
    dists
}

/// Dijkstra's algorithm from `start`: the least total weight of a walk to
/// every vertex of the adjacency map, `u32::MAX` where none is reachable.
/// The frontier holds `(vertex, cost)` entries and is never decreased in
/// place: an entry whose cost exceeds the recorded distance is skipped.
pub fn dijkstras(adj_list: &HashMap<u32, Vec<(u32, u32)>>, start: u32) -> (dists: HashMap<
    u32,
    u32,
>)
    requires
        closed(weighted_graph(adj_list@)),
    ensures
        is_distance_table(weighted_graph(adj_list@), start, dists@),
{
    let ghost g = weighted_graph(adj_list@);
    let ghost verts = g.dom().insert(start);
    assert(g.dom() =~= adj_list@.dom());
    let mut dists = init_hashmap(adj_list, start);
    let mut p_queue = MinHeap::new();
    p_queue.push((start, 0));
    proof {
        assert forall|v: u32| dists@.contains_key(v) && dists@[v] < u32::MAX implies reaches(
            g,
            start,
            v,
            dists@[v] as int,
        ) by {
            let p = seq![start];
            let ix = Seq::<int>::empty();
            assert(is_walk(g, p, ix));
            assert(p.last() == v);
        }
        lemma_potential_insert(dists@, verts, start, 0);
        assert(p_queue@.contains((start, 0u32)));
    }
    while p_queue.len() > 0
        invariant
            g == weighted_graph(adj_list@),
            closed(g),
            verts == g.dom().insert(start),
            verts.finite(),
            dists@.dom() == verts,
            dists@[start] == 0,
            p_queue.wf(),
            forall|x: (u32, u32)|
                #[trigger] p_queue@.contains(x) ==> verts.contains(x.0) && dists@[x.0] <= x.1
                    < u32::MAX,
            forall|v: u32, j: int|
                dists@.contains_key(v) && 0 <= j < out_edges(g, v).len() && !p_queue@.contains(
                    (v, dists@[v]),
                ) ==> dists@[(#[trigger] out_edges(g, v)[j]).0] <= dists@[v] + out_edges(g, v)[j].1,
            forall|v: u32| #[trigger]
                dists@.contains_key(v) && dists@[v] < u32::MAX ==> reaches(
                    g,
                    start,
                    v,
                    dists@[v] as int,
                ),
        decreases 2 * potential(dists@, verts) + p_queue@.len(),
    {
        proof {
            lemma_potential_insert(dists@, verts, start, 0);
        }
        let ghost measure0 = 2 * potential(dists@, verts) + p_queue@.len();
        let ghost q0 = p_queue@;
        let (u, cost) = p_queue.pop().unwrap();
        proof {
            assert(q0.contains((u, cost)));
            assert forall|x: (u32, u32)| #[trigger] p_queue@.contains(x) implies q0.contains(x) by {}
            assert forall|x: (u32, u32)| #[trigger] q0.contains(x) && x != (u, cost) implies p_queue@.contains(x) by {}
        }
        let du = lookup(&dists, u);
        if cost <= du {
            match adj_list.get(&u) {
                Some(list) => {
                    assert(out_edges(g, u) == list@);
                    let mut i: usize = 0;
                    while i < list.len()
                        invariant
                            g == weighted_graph(adj_list@),
                            closed(g),
                            verts == g.dom().insert(start),
                            verts.finite(),
                            dists@.dom() == verts,
                            dists@[start] == 0,
                            out_edges(g, u) == list@,
                            verts.contains(u),
                            dists@[u] == du,
                            du == cost,
                            du < u32::MAX,
                            i <= list.len(),
                            p_queue.wf(),
                            forall|x: (u32, u32)|
                                #[trigger] p_queue@.contains(x) ==> verts.contains(x.0)
                                    && dists@[x.0] <= x.1 < u32::MAX,
                            forall|v: u32, j: int|
                                dists@.contains_key(v) && 0 <= j < out_edges(g, v).len() && v != u
                                    && !p_queue@.contains((v, dists@[v])) ==> dists@[(
                                #[trigger] out_edges(g, v)[j]).0] <= dists@[v] + out_edges(
                                    g,
                                    v,
                                )[j].1,
                            forall|j: int|
                                0 <= j < i ==> dists@[(#[trigger] out_edges(g, u)[j]).0]
                                    <= dists@[u] + out_edges(g, u)[j].1,
                            forall|v: u32| #[trigger]
                                dists@.contains_key(v) && dists@[v] < u32::MAX ==> reaches(
                                    g,
                                    start,
                                    v,
                                    dists@[v] as int,
                                ),
                            2 * potential(dists@, verts) + p_queue@.len() < measure0,
                        decreases list.len() - i,
                    {
                        let (w, weight) = list[i];
                        assert(out_edges(g, u)[i as int] == (w, weight));
                        assert(g.contains_key(out_edges(g, u)[i as int].0));
                        let dw = lookup(&dists, w);
                        if weight < dw && cost < dw - weight {
                            let new_cost = cost + weight;
                            proof {
                                let (p, ix) = choose|p: Seq<u32>, ix: Seq<int>|
                                    is_walk(g, p, ix) && p[0] == start && p.last() == u
                                        && walk_cost(g, p, ix) == du as int;
                                lemma_walk_push(g, p, ix, i as int);
                                assert(p.push(w)[0] == start);
                                lemma_potential_insert(dists@, verts, w, new_cost);
                            }
                            let ghost qa = p_queue@;
                            let ghost da = dists@;
                            dists.insert(w, new_cost);
                            p_queue.push((w, new_cost));
                            proof {
                                assert(p_queue@.contains((w, new_cost)));
                                assert forall|x: (u32, u32)| #[trigger] p_queue@.contains(x) implies verts.contains(x.0)
                                    && dists@[x.0] <= x.1 < u32::MAX by {
                                    if x != (w, new_cost) {
                                        assert(qa.contains(x));
                                    }
                                }
                                assert forall|v: u32, j: int|
                                    dists@.contains_key(v) && 0 <= j < out_edges(g, v).len() && v
                                        != u && !p_queue@.contains((v, dists@[v])) implies dists@[(
                                #[trigger] out_edges(g, v)[j]).0] <= dists@[v] + out_edges(
                                    g,
                                    v,
                                )[j].1 by {
                                    if v != w {
                                        assert(!qa.contains((v, da[v])));
                                    }
                                }
                            }
                        }
                        i = i + 1;
                    }
                },
                None => {
                    assert(out_edges(g, u).len() == 0);
                },
            }
        } else {
            proof {
                assert forall|v: u32, j: int|
                    dists@.contains_key(v) && 0 <= j < out_edges(g, v).len() && !p_queue@.contains(
                        (v, dists@[v]),
                    ) implies dists@[(#[trigger] out_edges(g, v)[j]).0] <= dists@[v] + out_edges(
                    g,
                    v,
                )[j].1 by {
                    assert(!q0.contains((v, dists@[v])));
                }
            }
        }
        proof {
            lemma_potential_insert(dists@, verts, start, 0);
        }
    }
    dists
}

/// No pair of `ps` joins a vertex to itself, and no unordered pair occurs twice.
pub open spec fn distinct_unordered(ps: Seq<(u32, u32)>) -> bool {
    &&& forall|t: int| 0 <= t < ps.len() ==> (#[trigger] ps[t]).0 != ps[t].1
    &&& forall|t: int, u: int|
        0 <= t < u < ps.len() ==> #[trigger] ps[t] != #[trigger] ps[u] && ps[t] != (ps[u].1, ps[u].0)
}

proof fn lemma_pairs_len(s: Seq<u32>, n: nat)
    requires
        n <= s.len(),
    ensures
        2 * pairs_upto(s, n).len() == n * (2 * s.len() - n - 1),
    decreases n,
{
    if n > 0 {
        lemma_pairs_len(s, (n - 1) as nat);
        let k = s.len() as int;
        let m = n as int;
        let a = pairs_upto(s, (n - 1) as nat).len() as int;
        assert(2 * a == (m - 1) * (2 * k - (m - 1) - 1));
        assert(row(s, m - 1).len() == k - m);
        assert(pairs_upto(s, n).len() == a + (k - m));
        assert(2 * a + 2 * (k - m) == m * (2 * k - m - 1)) by (nonlinear_arith)
            requires
                2 * a == (m - 1) * (2 * k - (m - 1) - 1),
        ;
        assert(2 * pairs_upto(s, n).len() == m * (2 * k - m - 1));
    } else {
        assert(pairs_upto(s, n).len() == 0);
        assert(n * (2 * s.len() - n - 1) == 0);
    }
}

proof fn lemma_pairs_shape(s: Seq<u32>, n: nat)
    requires
        n <= s.len(),
    ensures
        forall|t: int|
            0 <= t < pairs_upto(s, n).len() ==> exists|i: int, j: int|
                0 <= i < j < s.len() && i < n && #[trigger] pairs_upto(s, n)[t] == (s[i], s[j]),
    decreases n,
{
    if n > 0 {
        let m = (n - 1) as nat;
        lemma_pairs_shape(s, m);
        let pre = pairs_upto(s, m);
        assert forall|t: int| 0 <= t < pairs_upto(s, n).len() implies exists|i: int, j: int|
            0 <= i < j < s.len() && i < n && #[trigger] pairs_upto(s, n)[t] == (s[i], s[j]) by {
            if t < pre.len() {
                assert(pairs_upto(s, n)[t] == pre[t]);
                let (i, j) = choose|i: int, j: int| 0 <= i < j < s.len() && i < m && pre[t] == (s[i], s[j]);
                assert(pairs_upto(s, n)[t] == (s[i], s[j]));
            } else {
                let x = t - pre.len();
                assert(pairs_upto(s, n)[t] == (s[m as int], s[m + 1 + x]));
            }
        }
    }
}

proof fn lemma_pairs_distinct(s: Seq<u32>, n: nat)
    requires
        n <= s.len(),
        s.no_duplicates(),
    ensures
        distinct_unordered(pairs_upto(s, n)),
    decreases n,
{
    if n > 0 {
        let m = (n - 1) as nat;
        lemma_pairs_distinct(s, m);
        lemma_pairs_shape(s, m);
        let pre = pairs_upto(s, m);
        let ps = pairs_upto(s, n);
        let r = row(s, m as int);
        assert(ps == pre + r);
        assert forall|t: int| 0 <= t < ps.len() implies (#[trigger] ps[t]).0 != ps[t].1 by {
            if t < pre.len() {
                assert(ps[t] == pre[t]);
            } else {
                assert(ps[t] == r[t - pre.len()]);
            }
        }
        assert forall|t: int, u: int| 0 <= t < u < ps.len() implies #[trigger] ps[t] != #[trigger] ps[u]
            && ps[t] != (ps[u].1, ps[u].0) by {
            if u < pre.len() {
                assert(ps[t] == pre[t] && ps[u] == pre[u]);
            } else if t >= pre.len() {
                assert(ps[t] == r[t - pre.len()] && ps[u] == r[u - pre.len()]);
            } else {
                assert(ps[t] == pre[t] && ps[u] == r[u - pre.len()]);
                let (i, j) = choose|i: int, j: int| 0 <= i < j < s.len() && i < m && pre[t] == (s[i], s[j]);
            }
        }
    }
}

/// A sample of `k` vertices gives exactly `k * (k - 1) / 2` pairs; when the
/// sample has no repeated vertex, none of them is a self-pair and no unordered
/// pair comes twice.
pub proof fn lemma_sample_pairs(s: Seq<u32>)
    ensures
        sample_pairs(s).len() == s.len() * (s.len() - 1) / 2,
        s.no_duplicates() ==> distinct_unordered(sample_pairs(s)),
{
    lemma_pairs_len(s, s.len());
    let k = s.len() as int;
    assert(k * (2 * k - k - 1) == k * (k - 1)) by (nonlinear_arith);
    if s.no_duplicates() {
        lemma_pairs_distinct(s, s.len());
    }
}

proof fn lemma_extend_row(s: Seq<u32>, i: int, j: int, r: Seq<DistancePair>, x: DistancePair)
    requires
        0 <= i < j < s.len(),
        pair_nodes(r) == pairs_upto(s, i as nat) + row(s, i).take(j - i - 1),
        x.node_1 == s[i],
        x.node_2 == s[j],
    ensures
        pair_nodes(r.push(x)) == pairs_upto(s, i as nat) + row(s, i).take(j - i),
{
    assert(row(s, i).take(j - i) =~= row(s, i).take(j - i - 1).push((s[i], s[j])));
    assert(pair_nodes(r.push(x)) =~= pair_nodes(r).push((x.node_1, x.node_2)));
    assert(pair_nodes(r.push(x)) =~= pairs_upto(s, i as nat) + row(s, i).take(j - i));
}

proof fn lemma_close_row(s: Seq<u32>, i: int)
    requires
        0 <= i < s.len(),
    ensures
        pairs_upto(s, i as nat) + row(s, i).take(s.len() - i - 1) == pairs_upto(s, (i + 1) as nat),
{
    assert(row(s, i).take(s.len() - i - 1) =~= row(s, i));
}

/// The shortest hop distance between every two positions of `sample`, one
/// breadth-first search per position.
pub fn sampled_distances_bfs(adjacency_list: &HashMap<u32, Vec<u32>>, sample: &Vec<u32>) -> (r: Vec<
    DistancePair,
>)
    requires
        closed(unit_graph(adjacency_list@)),
        forall|i: int| 0 <= i < sample@.len() ==> adjacency_list@.contains_key(#[trigger] sample@[i]),
    ensures
        sampled_distances(unit_graph(adjacency_list@), sample@, r@),
{
    let ghost g = unit_graph(adjacency_list@);
    let ghost s = sample@;
    let n = sample.len();
    let mut out: Vec<DistancePair> = Vec::new();
    assert(pair_nodes(out@) =~= pairs_upto(s, 0));
    for i in 0..n
        invariant
            n == s.len(),
            s == sample@,
            g == unit_graph(adjacency_list@),
            closed(g),
            forall|k: int| 0 <= k < s.len() ==> adjacency_list@.contains_key(#[trigger] s[k]),
            pair_nodes(out@) == pairs_upto(s, i as nat),
            forall|t: int|
                0 <= t < out@.len() ==> table_entry(g, (#[trigger] out@[t]).node_1, out@[t].node_2, out@[t].distance),
    {
        let start_node = sample[i];
        let dists = breadth_first_search(adjacency_list, start_node);
        assert(row(s, i as int).take(0) =~= Seq::<(u32, u32)>::empty());
        assert(pairs_upto(s, i as nat) + row(s, i as int).take(0) =~= pairs_upto(s, i as nat));
        for j in (i + 1)..n
            invariant
                n == s.len(),
                s == sample@,
                i < n,
                start_node == s[i as int],
                g == unit_graph(adjacency_list@),
                is_distance_table(g, start_node, dists@),
                forall|k: int| 0 <= k < s.len() ==> adjacency_list@.contains_key(#[trigger] s[k]),
                pair_nodes(out@) == pairs_upto(s, i as nat) + row(s, i as int).take(j - i - 1),
                forall|t: int|
                    0 <= t < out@.len() ==> table_entry(g, (#[trigger] out@[t]).node_1, out@[t].node_2, out@[t].distance),
        {
            let end_node = sample[j];
            assert(dists@.contains_key(end_node));
            let dist = lookup(&dists, end_node);
            let current_pair = DistancePair { node_1: start_node, node_2: end_node, distance: dist };
            proof {
                lemma_extend_row(s, i as int, j as int, out@, current_pair);
            }
            out.push(current_pair);
        }
        proof {
            lemma_close_row(s, i as int);
        }
    }
    out
}

/// The least weighted distance between every two positions of `sample`, one
/// run of Dijkstra's algorithm per position.
pub fn sampled_distances_dijkstras(adjacency_list: &HashMap<u32, Vec<(u32, u32)>>, sample: &Vec<u32>) -> (r: Vec<
    DistancePair,
>)
    requires
        closed(weighted_graph(adjacency_list@)),
        forall|i: int| 0 <= i < sample@.len() ==> adjacency_list@.contains_key(#[trigger] sample@[i]),
    ensures
        sampled_distances(weighted_graph(adjacency_list@), sample@, r@),
{
    let ghost g = weighted_graph(adjacency_list@);
    let ghost s = sample@;
    let n = sample.len();
    let mut out: Vec<DistancePair> = Vec::new();
    assert(pair_nodes(out@) =~= pairs_upto(s, 0));
    for i in 0..n
        invariant
            n == s.len(),
            s == sample@,
            g == weighted_graph(adjacency_list@),
            closed(g),
            forall|k: int| 0 <= k < s.len() ==> adjacency_list@.contains_key(#[trigger] s[k]),
            pair_nodes(out@) == pairs_upto(s, i as nat),
            forall|t: int|
                0 <= t < out@.len() ==> table_entry(g, (#[trigger] out@[t]).node_1, out@[t].node_2, out@[t].distance),
    {
        let start_node = sample[i];
        let dists = dijkstras(adjacency_list, start_node);
        assert(row(s, i as int).take(0) =~= Seq::<(u32, u32)>::empty());
        assert(pairs_upto(s, i as nat) + row(s, i as int).take(0) =~= pairs_upto(s, i as nat));
        for j in (i + 1)..n
            invariant
                n == s.len(),
                s == sample@,
                i < n,
                start_node == s[i as int],
                g == weighted_graph(adjacency_list@),
                is_distance_table(g, start_node, dists@),
                forall|k: int| 0 <= k < s.len() ==> adjacency_list@.contains_key(#[trigger] s[k]),
                pair_nodes(out@) == pairs_upto(s, i as nat) + row(s, i as int).take(j - i - 1),
                forall|t: int|
                    0 <= t < out@.len() ==> table_entry(g, (#[trigger] out@[t]).node_1, out@[t].node_2, out@[t].distance),
        {
            let end_node = sample[j];
            assert(dists@.contains_key(end_node));
            let dist = lookup(&dists, end_node);
            let current_pair = DistancePair { node_1: start_node, node_2: end_node, distance: dist };
            proof {
                lemma_extend_row(s, i as int, j as int, out@, current_pair);
            }
            out.push(current_pair);
        }
        proof {
            lemma_close_row(s, i as int);
        }
    }
    out
}

/// Relies on rand's `SliceRandom::shuffle`, drawing from `rand::thread_rng`:
/// the result holds the same vertices, each as often, in a random order.
#[verifier::external_body]
fn shuffle_vertices(vertices: Vec<u32>) -> (r: Vec<u32>)
    ensures
        r@.to_multiset() == vertices@.to_multiset(),
{
    let mut vertices = vertices;
    rand::seq::SliceRandom::shuffle(vertices.as_mut_slice(), &mut rand::thread_rng());
    vertices
}

/// A random sample of `k` distinct vertices of the map: its keys in random
/// order, cut to the first `k`.
fn choose_sample<V>(adjacency_list: &HashMap<u32, V>, k: usize) -> (sample: Vec<u32>)
    requires
        k <= adjacency_list@.dom().len(),
    ensures
        sample@.len() == k,
        sample@.no_duplicates(),
        forall|i: int| 0 <= i < k ==> adjacency_list@.contains_key(#[trigger] sample@[i]),
{
    let vertices = vertex_list(adjacency_list);
    let ghost before = vertices@;
    let shuffled = shuffle_vertices(vertices);
    proof {
        broadcast use vstd::seq_lib::group_to_multiset_ensures;
        before.lemma_multiset_has_no_duplicates();
        assert forall|x: u32| shuffled@.to_multiset().contains(x) implies shuffled@.to_multiset().count(x) == 1 by {
            assert(before.to_multiset().contains(x));
        }
        shuffled@.lemma_multiset_has_no_duplicates_conv();
        assert(shuffled@.len() == before.len()) by {
            before.to_multiset_ensures();
            shuffled@.to_multiset_ensures();
        }
    }
    let mut sample: Vec<u32> = Vec::new();
    let mut i: usize = 0;
    while i < k
        invariant
            i <= k,
            k <= shuffled@.len(),
            shuffled@.no_duplicates(),
            before.to_set() == adjacency_list@.dom(),
            shuffled@.to_multiset() == before.to_multiset(),
            sample@ == shuffled@.take(i as int),
        decreases k - i,
    {
        proof {
            broadcast use vstd::seq_lib::group_to_multiset_ensures;
            let x = shuffled@[i as int];
            assert(shuffled@.contains(x));
            before.to_multiset_ensures();
            shuffled@.to_multiset_ensures();
            assert(shuffled@.to_multiset().count(x) > 0);
            assert(before.contains(x));
        }
        sample.push(shuffled[i]);
        assert(sample@ =~= shuffled@.take(i + 1));
        i = i + 1;
    }
    proof {
        assert forall|i: int| 0 <= i < k implies adjacency_list@.contains_key(#[trigger] sample@[i]) by {
            broadcast use vstd::seq_lib::group_to_multiset_ensures;
            assert(shuffled@[i] == sample@[i]);
            assert(shuffled@.contains(sample@[i]));
            before.to_multiset_ensures();
            shuffled@.to_multiset_ensures();
            assert(shuffled@.to_multiset().count(sample@[i]) > 0);
            assert(before.contains(sample@[i]));
        }
        assert forall|a: int, b: int| 0 <= a < b < k implies sample@[a] != sample@[b] by {
            assert(sample@[a] == shuffled@[a] && sample@[b] == shuffled@[b]);
        }
    }
    sample
}

/// Breadth-first distances between every two vertices of a random sample of
/// `num_vertices` distinct vertices; refused when the graph has fewer.
pub fn run_random_test_bfs(adjacency_list: &HashMap<u32, Vec<u32>>, num_vertices: usize) -> (r:
    Result<Vec<DistancePair>, GraphError>)
    requires
        closed(unit_graph(adjacency_list@)),
    ensures
        r is Err <==> num_vertices > adjacency_list@.dom().len(),
        r is Err ==> r == Err::<Vec<DistancePair>, GraphError>(GraphError::OversizedSample),
        r is Ok ==> exists|s: Seq<u32>|
            {
                &&& s.len() == num_vertices
                &&& s.no_duplicates()
                &&& forall|i: int| 0 <= i < s.len() ==> adjacency_list@.contains_key(#[trigger] s[i])
                &&& sampled_distances(unit_graph(adjacency_list@), s, r->Ok_0@)
            },
        r is Ok ==> r->Ok_0@.len() == num_vertices * (num_vertices - 1) / 2,
        r is Ok ==> distinct_unordered(pair_nodes(r->Ok_0@)),
{
    if num_vertices > adjacency_list.len() {
        return Err(GraphError::OversizedSample);
    }
    let sample = choose_sample(adjacency_list, num_vertices);
    let pairs = sampled_distances_bfs(adjacency_list, &sample);
    proof {
        lemma_sample_pairs(sample@);
    }
    Ok(pairs)
}

/// Dijkstra distances between every two vertices of a random sample of
/// `num_vertices` distinct vertices; refused when the graph has fewer.
pub fn run_random_test_dijkstras(adjacency_list: &HashMap<u32, Vec<(u32, u32)>>, num_vertices: usize) -> (r:
    Result<Vec<DistancePair>, GraphError>)
    requires
        closed(weighted_graph(adjacency_list@)),
    ensures
        r is Err <==> num_vertices > adjacency_list@.dom().len(),
        r is Err ==> r == Err::<Vec<DistancePair>, GraphError>(GraphError::OversizedSample),
        r is Ok ==> exists|s: Seq<u32>|
            {
                &&& s.len() == num_vertices
                &&& s.no_duplicates()
                &&& forall|i: int| 0 <= i < s.len() ==> adjacency_list@.contains_key(#[trigger] s[i])
                &&& sampled_distances(weighted_graph(adjacency_list@), s, r->Ok_0@)
            },
        r is Ok ==> r->Ok_0@.len() == num_vertices * (num_vertices - 1) / 2,
        r is Ok ==> distinct_unordered(pair_nodes(r->Ok_0@)),
{
    if num_vertices > adjacency_list.len() {
        return Err(GraphError::OversizedSample);
    }
    let sample = choose_sample(adjacency_list, num_vertices);
    let pairs = sampled_distances_dijkstras(adjacency_list, &sample);
    proof {
        lemma_sample_pairs(sample@);
    }
    Ok(pairs)
}

} // verus!
