use std::collections::HashMap;
use crate::paths::{closed, out_edges, symmetric, unit_graph, weighted_graph};
use vstd::prelude::*;
use vstd::std_specs::iter::IteratorSpec;
use vstd::string::StrSliceExecFns;

verus! {

broadcast use vstd::std_specs::hash::group_hash_axioms;

/// The vertices named by an edge list: every endpoint of every edge.
pub open spec fn endpoints(edges: Seq<(u32, u32)>) -> Set<u32> {
    Set::new(|v: u32| exists|i: int| 0 <= i < edges.len() && (edges[i].0 == v || edges[i].1 == v))
}

/// The neighbor list of `v` built from `edges` read in order: each edge
/// `(a, b)` appends `b` to the list of `a`, then `a` to the list of `b`.
pub open spec fn neighbors_in(edges: Seq<(u32, u32)>, v: u32) -> Seq<u32>
    decreases edges.len(),
{
    if edges.len() == 0 {
        Seq::empty()
    } else {
        let (a, b) = edges.last();
        neighbors_in(edges.drop_last(), v) + (if a == v {
            seq![b]
        } else {
            Seq::empty()
        }) + (if b == v {
            seq![a]
        } else {
            Seq::empty()
        })
    }
}

proof fn lemma_neighbors_mirror(edges: Seq<(u32, u32)>, v: u32, w: u32)
    requires
        neighbors_in(edges, v).contains(w),
    ensures
        neighbors_in(edges, w).contains(v),
        endpoints(edges).contains(w),
        endpoints(edges).contains(v),
    decreases edges.len(),
{
    let (a, b) = edges.last();
    let pre = edges.drop_last();
    let i = edges.len() - 1;
    if neighbors_in(pre, v).contains(w) {
        lemma_neighbors_mirror(pre, v, w);
        let k = choose|k: int| 0 <= k < neighbors_in(pre, w).len() && neighbors_in(pre, w)[k] == v;
        assert(neighbors_in(edges, w)[k] == v);
        let e1 = choose|j: int| 0 <= j < pre.len() && (pre[j].0 == w || pre[j].1 == w);
        assert(edges[e1] == pre[e1]);
        let e2 = choose|j: int| 0 <= j < pre.len() && (pre[j].0 == v || pre[j].1 == v);
        assert(edges[e2] == pre[e2]);
    } else {
        let t = choose|t: int| 0 <= t < neighbors_in(edges, v).len() && neighbors_in(edges, v)[t] == w;
        assert(edges[i] == (a, b));
        let n = neighbors_in(pre, w).len() as int;
        if a == v && b == w && t == neighbors_in(pre, v).len() {
            if a == b {
                assert(neighbors_in(edges, w)[n] == v);
            } else {
                assert(neighbors_in(edges, w)[n] == v);
            }
        } else {
            assert(b == v && a == w);
            assert(neighbors_in(edges, w)[n] == v);
        }
    }
}

/// The vertices that are keys of an adjacency map, each once.
pub fn vertex_list<V>(adj: &HashMap<u32, V>) -> (r: Vec<u32>)
    ensures
        r@.to_set() == adj@.dom(),
        r@.no_duplicates(),
        r@.len() == adj@.dom().len(),
{
    let ghost ks = adj.keys().remaining().unref();
    let mut r: Vec<u32> = Vec::new();
    for k in it: adj.keys()
        invariant
            it.seq().unref() == ks,
            ks.to_set() == adj@.dom(),
            ks.no_duplicates(),
            ks.len() == adj@.dom().len(),
            r@ == ks.take(it.index()),
    {
        r.push(*k);
        assert(r@ =~= ks.take(it.index() + 1));
    }
    assert(r@ =~= ks);
    r
}

/// Builds the neighbor lists of an undirected edge list. Every edge `(a, b)`
/// puts `b` in the list of `a` and `a` in the list of `b`; repeated edges and
/// self-loops are kept as given.
pub fn edges_to_adjacency_list(edges: &Vec<(u32, u32)>) -> (adjacency_list: HashMap<u32, Vec<u32>>)
    ensures
        adjacency_list@.dom() == endpoints(edges@),
        forall|v: u32| #[trigger]
            adjacency_list@.contains_key(v) ==> adjacency_list@[v]@ == neighbors_in(edges@, v),
        closed(unit_graph(adjacency_list@)),
        symmetric(unit_graph(adjacency_list@)),
{
    let mut adjacency_list: HashMap<u32, Vec<u32>> = HashMap::new();
    let mut i: usize = 0;
    while i < edges.len()
        invariant
            i <= edges.len(),
            adjacency_list@.dom() == endpoints(edges@.take(i as int)),
            forall|v: u32| #[trigger]
                adjacency_list@.contains_key(v) ==> adjacency_list@[v]@ == neighbors_in(
                    edges@.take(i as int),
                    v,
                ),
        decreases edges.len() - i,
    {
        let (src_node, dst_node) = edges[i];
        let ghost pre = edges@.take(i as int);
        let ghost cur = edges@.take(i + 1);
        assert(cur.drop_last() =~= pre);
        assert(cur.last() == (src_node, dst_node));
        append_neighbor(&mut adjacency_list, src_node, dst_node);
        append_neighbor(&mut adjacency_list, dst_node, src_node);
        proof {
            assert forall|v: u32| #[trigger] cur.len() > 0 && endpoints(cur).contains(v) <==> (
            endpoints(pre).contains(v) || v == src_node || v == dst_node) by {
                if endpoints(cur).contains(v) {
                    let j = choose|j: int| 0 <= j < cur.len() && (cur[j].0 == v || cur[j].1 == v);
                    if j < pre.len() {
                        assert(pre[j] == cur[j]);
                    }
                }
                if endpoints(pre).contains(v) {
                    let j = choose|j: int| 0 <= j < pre.len() && (pre[j].0 == v || pre[j].1 == v);
                    assert(pre[j] == cur[j]);
                }
                if v == src_node || v == dst_node {
                    assert(cur[cur.len() - 1] == (src_node, dst_node));
                }
            }
            assert(adjacency_list@.dom() =~= endpoints(cur));
            assert forall|v: u32| #[trigger] adjacency_list@.contains_key(v) implies adjacency_list@[v]@
                == neighbors_in(cur, v) by {
                if !endpoints(pre).contains(v) {
                    assert(neighbors_in(pre, v) =~= Seq::<u32>::empty()) by {
                        if neighbors_in(pre, v).len() > 0 {
                            assert(neighbors_in(pre, v).contains(neighbors_in(pre, v)[0]));
                            lemma_neighbors_mirror(pre, v, neighbors_in(pre, v)[0]);
                        }
                    }
                }
            }
        }
        i = i + 1;
    }
    assert(edges@.take(edges@.len() as int) =~= edges@);
    let ghost g = unit_graph(adjacency_list@);
    assert forall|v: u32, j: int| 0 <= j < out_edges(g, v).len() implies g.contains_key(
        #[trigger] out_edges(g, v)[j].0,
    ) && out_edges(g, (out_edges(g, v)[j]).0).contains((v, out_edges(g, v)[j].1)) by {
        let w = out_edges(g, v)[j].0;
        assert(neighbors_in(edges@, v)[j] == w);
        lemma_neighbors_mirror(edges@, v, w);
        let k = choose|k: int| 0 <= k < neighbors_in(edges@, w).len() && neighbors_in(edges@, w)[k] == v;
        assert(out_edges(g, w)[k] == (v, 1u32));
    }
    adjacency_list
}

/// Appends `w` to the neighbor list of `v`, creating the list if needed.
fn append_neighbor(adjacency_list: &mut HashMap<u32, Vec<u32>>, v: u32, w: u32)
    ensures
        final(adjacency_list)@.dom() == old(adjacency_list)@.dom().insert(v),
        forall|k: u32| #[trigger]
            old(adjacency_list)@.contains_key(k) && k != v ==> final(adjacency_list)@[k]
                == old(adjacency_list)@[k],
        final(adjacency_list)@[v]@ == (if old(adjacency_list)@.contains_key(v) {
            old(adjacency_list)@[v]@
        } else {
            Seq::empty()
        }).push(w),
{
    let mut list = match adjacency_list.remove(&v) {
        Some(l) => l,
        None => Vec::new(),
    };
    list.push(w);
    adjacency_list.insert(v, list);
}

/// Gives every neighbor entry the weight 1, keeping the order and number of
/// entries of each vertex.
pub fn edges_to_weighted_adjacency_list(unweighted_adj_list: &HashMap<u32, Vec<u32>>) -> (r: HashMap<
    u32,
    Vec<(u32, u32)>,
>)
    ensures
        weighted_graph(r@) == unit_graph(unweighted_adj_list@),
{
    let mut r: HashMap<u32, Vec<(u32, u32)>> = HashMap::new();
    let ghost ks = unweighted_adj_list.keys().remaining().unref();
    for node in it: unweighted_adj_list.keys()
        invariant
            it.seq().unref() == ks,
            ks.to_set() == unweighted_adj_list@.dom(),
            r@.dom() == ks.take(it.index()).to_set(),
            forall|v: u32| #[trigger]
                r@.contains_key(v) ==> unweighted_adj_list@.contains_key(v) && r@[v]@ == unweighted_adj_list@[v]@.map_values(
                    |w: u32| (w, 1u32),
                ),
    {
        assert(ks.take(it.index() + 1) =~= ks.take(it.index()) + seq![*node]);
        proof {
            Seq::lemma_to_set_insert_commutes(ks.take(it.index()), *node);
            assert(ks.contains(*node));
        }
        match unweighted_adj_list.get(node) {
            Some(adj) => {
                let mut weighted: Vec<(u32, u32)> = Vec::new();
                let mut j: usize = 0;
                while j < adj.len()
                    invariant
                        j <= adj.len(),
                        weighted@ == adj@.take(j as int).map_values(|w: u32| (w, 1u32)),
                    decreases adj.len() - j,
                {
                    weighted.push((adj[j], 1));
                    assert(adj@.take(j + 1) =~= adj@.take(j as int).push(adj@[j as int]));
                    assert(weighted@ =~= adj@.take(j + 1).map_values(|w: u32| (w, 1u32)));
                    j = j + 1;
                }
                assert(adj@.take(adj@.len() as int) =~= adj@);
                r.insert(*node, weighted);
            },
            None => {},
        }
    }
    assert(ks.take(ks.len() as int) =~= ks);
    assert(weighted_graph(r@) =~= unit_graph(unweighted_adj_list@));
    r
}

/// Why an edge file could not be read.
#[derive(Clone, Copy, Debug, PartialEq, Eq, Structural)]
pub enum EdgeDataError {
    /// The bytes are not a well-formed delimited file.
    Unreadable,
    /// A record has fewer than two fields.
    MissingEndpoint,
    /// An endpoint field is not a decimal `u32`.
    BadVertexId,
}

/// The value of a string of decimal digits.
pub open spec fn digits_value(d: Seq<char>) -> int
    decreases d.len(),
{
    if d.len() == 0 {
        0
    } else {
        digits_value(d.drop_last()) * 10 + (d.last() as int - '0' as int)
    }
}

pub open spec fn all_digits(d: Seq<char>) -> bool {
    forall|i: int| 0 <= i < d.len() ==> '0' <= #[trigger] d[i] <= '9'
}

/// A `u32` written in decimal, with an optional leading `+`, as std reads it.
pub open spec fn u32_of(s: Seq<char>) -> Option<u32> {
    let d = if s.len() > 0 && s[0] == '+' {
        s.drop_first()
    } else {
        s
    };
    if d.len() > 0 && all_digits(d) && digits_value(d) <= u32::MAX {
        Some(digits_value(d) as u32)
    } else {
        None
    }
}

/// The edge that one record of the file names: its first two fields.
pub open spec fn record_edge(rec: Seq<Seq<char>>) -> Result<(u32, u32), EdgeDataError> {
    if rec.len() < 2 {
        Err(EdgeDataError::MissingEndpoint)
    } else if u32_of(rec[0]) is None || u32_of(rec[1]) is None {
        Err(EdgeDataError::BadVertexId)
    } else {
        Ok((u32_of(rec[0])->0, u32_of(rec[1])->0))
    }
}

/// The edges of a list of records, in order, or the error of the first bad one.
pub open spec fn edges_from_records(rows: Seq<Seq<Seq<char>>>) -> Result<Seq<(u32, u32)>, EdgeDataError>
    decreases rows.len(),
{
    if rows.len() == 0 {
        Ok(Seq::empty())
    } else {
        match edges_from_records(rows.drop_last()) {
            Err(e) => Err(e),
            Ok(es) => match record_edge(rows.last()) {
                Ok(e) => Ok(es.push(e)),
                Err(e) => Err(e),
            },
        }
    }
}

proof fn lemma_digits_grow(d: Seq<char>, k: int)
    requires
        all_digits(d),
        0 <= k <= d.len(),
    ensures
        digits_value(d.take(k)) <= digits_value(d),
        0 <= digits_value(d.take(k)),
    decreases d.len(),
{
    if k < d.len() {
        assert(all_digits(d.drop_last()));
        assert(d.drop_last().take(k) =~= d.take(k));
        lemma_digits_grow(d.drop_last(), k);
    } else {
        assert(d.take(k) =~= d);
        if d.len() > 0 {
            assert(all_digits(d.drop_last()));
            lemma_digits_grow(d.drop_last(), k - 1);
            assert(d.drop_last().take(k - 1) =~= d.drop_last());
        }
    }
}

/// Reads a vertex id written in decimal.
pub fn parse_u32(s: &str) -> (r: Option<u32>)
    ensures
        r == u32_of(s@),
{
    let n = s.unicode_len();
    let mut i: usize = 0;
    if n > 0 && s.get_char(0) == '+' {
        i = 1;
    }
    let first = i;
    let ghost d = if s@.len() > 0 && s@[0] == '+' {
        s@.drop_first()
    } else {
        s@
    };
    assert(d =~= s@.subrange(first as int, n as int));
    assert(u32_of(s@) == (if d.len() > 0 && all_digits(d) && digits_value(d) <= u32::MAX {
        Some(digits_value(d) as u32)
    } else {
        None
    }));
    if i >= n {
        return None;
    }
    let mut v: u32 = 0;
    while i < n
        invariant
            first <= i <= n,
            n == s@.len(),
            d == s@.subrange(first as int, n as int),
            u32_of(s@) == (if d.len() > 0 && all_digits(d) && digits_value(d) <= u32::MAX {
                Some(digits_value(d) as u32)
            } else {
                None
            }),
            d.len() > 0,
            all_digits(d.take(i - first)),
            v == digits_value(d.take(i - first)),
        decreases n - i,
    {
        let c = s.get_char(i);
        assert(d[i - first] == c);
        if c < '0' || c > '9' {
            assert(!('0' <= d[i - first] <= '9'));
            assert(!all_digits(d));
            assert(u32_of(s@) is None);
            return None;
        }
        let ghost pre = d.take(i - first);
        let ghost cur = d.take(i - first + 1);
        assert(cur.drop_last() =~= pre);
        let digit = (c as u32) - ('0' as u32);
        assert(cur.last() == c);
        assert(digits_value(cur) == v * 10 + digit);
        if v > 429496729 || (v == 429496729 && digit > 5) {
            proof {
                if all_digits(d) {
                    lemma_digits_grow(d, i - first + 1);
                }
            }
            assert(u32_of(s@) is None);
            return None;
        }
        v = v * 10 + digit;
        assert(all_digits(cur));
        i = i + 1;
    }
    assert(d.take(n - first) =~= d);
    Some(v)
}

pub uninterp spec fn csv_records_of(data: Seq<u8>) -> Option<Seq<Seq<Seq<char>>>>;

/// Relies on the csv crate (`ReaderBuilder` with a header row, then
/// `Reader::records`): the records after the header, each as its list of
/// fields, or `None` where csv reports an error.
#[verifier::external_body]
fn csv_records(data: &[u8]) -> (r: Option<Vec<Vec<String>>>)
    ensures
        r is None <==> csv_records_of(data@) is None,
        r matches Some(rows) ==> csv_records_of(data@) == Some(rows.deep_view()),
{
    let mut reader = csv::ReaderBuilder::new().has_headers(true).from_reader(data);
    let mut rows: Vec<Vec<String>> = Vec::new();
    for record in reader.records() {
        match record {
            Ok(rec) => rows.push(rec.iter().map(|f| f.to_string()).collect()),
            Err(_) => return None,
        }
    }
    Some(rows)
}

/// The edges named by records of fields: the first two fields of each
/// record are its endpoints.
pub fn parse_edge_records(rows: &Vec<Vec<String>>) -> (r: Result<Vec<(u32, u32)>, EdgeDataError>)
    ensures
        match r {
            Ok(es) => edges_from_records(rows.deep_view()) == Ok::<Seq<(u32, u32)>, EdgeDataError>(es@),
            Err(e) => edges_from_records(rows.deep_view()) == Err::<Seq<(u32, u32)>, EdgeDataError>(e),
        },
{
    let ghost all = rows.deep_view();
    let mut edges: Vec<(u32, u32)> = Vec::new();
    let mut i: usize = 0;
    while i < rows.len()
        invariant
            i <= rows.len(),
            all == rows.deep_view(),
            edges_from_records(all.take(i as int)) == Ok::<Seq<(u32, u32)>, EdgeDataError>(edges@),
        decreases rows.len() - i,
    {
        let ghost cur = all.take(i + 1);
        assert(cur.drop_last() =~= all.take(i as int));
        let rec = &rows[i];
        assert(cur.last() == rec.deep_view());
        if rec.len() < 2 {
            proof { lemma_error_stays(all, i as int); }
            return Err(EdgeDataError::MissingEndpoint);
        }
        assert(rec.deep_view()[0] == rec[0]@);
        assert(rec.deep_view()[1] == rec[1]@);
        let a = parse_u32(rec[0].as_str());
        let b = parse_u32(rec[1].as_str());
        match (a, b) {
            (Some(x), Some(y)) => {
                edges.push((x, y));
            },
            _ => {
                proof { lemma_error_stays(all, i as int); }
                return Err(EdgeDataError::BadVertexId);
            },
        }
        i = i + 1;
    }
    assert(all.take(rows.len() as int) =~= all);
    Ok(edges)
}

proof fn lemma_error_stays(all: Seq<Seq<Seq<char>>>, i: int)
    requires
        0 <= i < all.len(),
        edges_from_records(all.take(i)) is Ok,
        record_edge(all[i]) is Err,
    ensures
        edges_from_records(all) == Err::<Seq<(u32, u32)>, EdgeDataError>(record_edge(all[i])->Err_0),
    decreases all.len(),
{
    if i == all.len() - 1 {
        assert(all.drop_last() =~= all.take(i));
    } else {
        assert(all.drop_last().take(i) =~= all.take(i));
        lemma_error_stays(all.drop_last(), i);
    }
}

/// Reads an edge list from the bytes of a delimited file with a header row:
/// the first two fields of every record are the endpoints of one edge.
pub fn parse_edge_data(data: &[u8]) -> (r: Result<Vec<(u32, u32)>, EdgeDataError>)
    ensures
        csv_records_of(data@) is None ==> r == Err::<Vec<(u32, u32)>, EdgeDataError>(
            EdgeDataError::Unreadable,
        ),
        csv_records_of(data@) matches Some(rows) ==> match r {
            Ok(es) => edges_from_records(rows) == Ok::<Seq<(u32, u32)>, EdgeDataError>(es@),
            Err(e) => edges_from_records(rows) == Err::<Seq<(u32, u32)>, EdgeDataError>(e),
        },
{
    match csv_records(data) {
        None => Err(EdgeDataError::Unreadable),
        Some(rows) => parse_edge_records(&rows),
    }
}

} // verus!
