use github_degrees::graph_algos::{
    breadth_first_search, dijkstras, run_random_test_bfs, run_random_test_dijkstras,
    sampled_distances_bfs, sampled_distances_dijkstras, DistancePair, GraphError,
};
use github_degrees::graph_reader::{
    edges_to_adjacency_list, edges_to_weighted_adjacency_list, parse_edge_data, parse_u32,
    EdgeDataError,
};
use github_degrees::min_heap::MinHeap;
use github_degrees::stats::calc_distance_totals;
use std::collections::HashMap;

/// The diamond with a chord: 1-2, 2-3, 1-4, 2-4, 3-4.
fn diamond_edges() -> Vec<(u32, u32)> {
    vec![(1, 2), (2, 3), (1, 4), (2, 4), (3, 4)]
}

#[test]
fn test_algorithm() {
    let edges = diamond_edges();
    assert_eq!(edges.len(), 5, "Read too many edges");

    let adjacency_list = edges_to_adjacency_list(&edges);
    assert_eq!(adjacency_list.len(), 4, "Wrong number of nodes read.");

    let sample_size = 4;
    let shortest_dists_v2 = run_random_test_bfs(&adjacency_list, sample_size).unwrap();
    let v2_len = shortest_dists_v2.len();
    assert_eq!(v2_len, 6, "Number of distances in test graph is incorrect");

    let mut total_distance = 0;
    for i in shortest_dists_v2 {
        let dist = i.distance;
        total_distance += dist;
    }
    let algo_mean_of_differences = total_distance as f64 / v2_len as f64;
    let actual_mean_of_differences: f64 = 1.1667;
    let epsilon = algo_mean_of_differences - actual_mean_of_differences;
    assert!(
        epsilon.abs() < 0.01,
        "Mean of distances in test graph is incorrect!"
    );
}

#[test]
fn adjacency_keeps_insertion_order_loops_and_repeats() {
    let edges = vec![(1, 2), (2, 3), (1, 2), (3, 3)];
    let adj = edges_to_adjacency_list(&edges);
    assert_eq!(adj.len(), 3);
    assert_eq!(adj[&1], vec![2, 2]);
    assert_eq!(adj[&2], vec![1, 3, 1]);
    assert_eq!(adj[&3], vec![2, 3, 3]);
}

#[test]
fn adjacency_of_no_edges_is_empty() {
    let adj = edges_to_adjacency_list(&Vec::new());
    assert!(adj.is_empty());
}

#[test]
fn weighted_list_gives_unit_weights_in_order() {
    let adj = edges_to_adjacency_list(&diamond_edges());
    let weighted = edges_to_weighted_adjacency_list(&adj);
    assert_eq!(weighted.len(), 4);
    assert_eq!(weighted[&2], vec![(1, 1), (3, 1), (4, 1)]);
    assert_eq!(weighted[&4], vec![(1, 1), (2, 1), (3, 1)]);
    for (v, list) in &adj {
        let w: Vec<u32> = weighted[v].iter().map(|e| e.0).collect();
        assert_eq!(&w, list);
    }
}

#[test]
fn bfs_on_diamond_gives_hop_distances() {
    let adj = edges_to_adjacency_list(&diamond_edges());
    let d = breadth_first_search(&adj, 1);
    assert_eq!(d.len(), 4);
    assert_eq!(d[&1], 0);
    assert_eq!(d[&2], 1);
    assert_eq!(d[&3], 2);
    assert_eq!(d[&4], 1);
}

#[test]
fn bfs_on_a_path_counts_hops() {
    let edges: Vec<(u32, u32)> = (0..10).map(|i| (i, i + 1)).collect();
    let adj = edges_to_adjacency_list(&edges);
    let d = breadth_first_search(&adj, 0);
    for v in 0..=10u32 {
        assert_eq!(d[&v], v);
    }
}

#[test]
fn unreachable_vertices_stay_at_max() {
    let adj = edges_to_adjacency_list(&vec![(1, 2), (3, 4)]);
    let d = breadth_first_search(&adj, 1);
    assert_eq!(d[&2], 1);
    assert_eq!(d[&3], u32::MAX);
    assert_eq!(d[&4], u32::MAX);
    let w = dijkstras(&edges_to_weighted_adjacency_list(&adj), 1);
    assert_eq!(w[&3], u32::MAX);
    assert_eq!(w[&4], u32::MAX);
}

#[test]
fn start_outside_the_graph_is_isolated() {
    let adj = edges_to_adjacency_list(&vec![(1, 2)]);
    let d = breadth_first_search(&adj, 9);
    assert_eq!(d.len(), 3);
    assert_eq!(d[&9], 0);
    assert_eq!(d[&1], u32::MAX);
}

#[test]
fn dijkstra_uses_weights() {
    let mut adj: HashMap<u32, Vec<(u32, u32)>> = HashMap::new();
    adj.insert(1, vec![(2, 7), (3, 2)]);
    adj.insert(2, vec![(1, 7), (3, 3), (4, 1)]);
    adj.insert(3, vec![(1, 2), (2, 3), (4, 9)]);
    adj.insert(4, vec![(2, 1), (3, 9)]);
    let d = dijkstras(&adj, 1);
    assert_eq!(d[&1], 0);
    assert_eq!(d[&2], 5);
    assert_eq!(d[&3], 2);
    assert_eq!(d[&4], 6);
}

#[test]
fn dijkstra_with_huge_weights_does_not_overflow() {
    let mut adj: HashMap<u32, Vec<(u32, u32)>> = HashMap::new();
    adj.insert(1, vec![(2, u32::MAX - 1)]);
    adj.insert(2, vec![(1, u32::MAX - 1), (3, u32::MAX - 1)]);
    adj.insert(3, vec![(2, u32::MAX - 1)]);
    let d = dijkstras(&adj, 1);
    assert_eq!(d[&2], u32::MAX - 1);
    assert_eq!(d[&3], u32::MAX);
}

fn grid_edges() -> Vec<(u32, u32)> {
    let mut edges = Vec::new();
    for r in 0..5u32 {
        for c in 0..5u32 {
            let v = r * 5 + c;
            if c + 1 < 5 {
                edges.push((v, v + 1));
            }
            if r + 1 < 5 && (r + c) % 3 != 0 {
                edges.push((v, v + 5));
            }
        }
    }
    edges.push((30, 31));
    edges
}

#[test]
fn dijkstra_equals_bfs_on_unit_weights() {
    let adj = edges_to_adjacency_list(&grid_edges());
    let weighted = edges_to_weighted_adjacency_list(&adj);
    for start in adj.keys() {
        assert_eq!(breadth_first_search(&adj, *start), dijkstras(&weighted, *start));
    }
}

#[test]
fn distances_are_symmetric() {
    let adj = edges_to_adjacency_list(&grid_edges());
    let weighted = edges_to_weighted_adjacency_list(&adj);
    for u in adj.keys() {
        let du = breadth_first_search(&adj, *u);
        let wu = dijkstras(&weighted, *u);
        for v in adj.keys() {
            assert_eq!(du[v], breadth_first_search(&adj, *v)[u]);
            assert_eq!(wu[v], dijkstras(&weighted, *v)[u]);
        }
    }
}

#[test]
fn start_is_zero_and_edges_never_improve_a_table() {
    let adj = edges_to_adjacency_list(&grid_edges());
    for u in adj.keys() {
        let d = breadth_first_search(&adj, *u);
        assert_eq!(d[u], 0);
        for (v, list) in &adj {
            for w in list {
                assert!(d[w] as u64 <= d[v] as u64 + 1);
            }
        }
    }
}

#[test]
fn sampled_pairs_follow_sample_order() {
    let adj = edges_to_adjacency_list(&diamond_edges());
    let r = sampled_distances_bfs(&adj, &vec![3, 1, 4]);
    assert_eq!(
        r,
        vec![
            DistancePair { node_1: 3, node_2: 1, distance: 2 },
            DistancePair { node_1: 3, node_2: 4, distance: 1 },
            DistancePair { node_1: 1, node_2: 4, distance: 1 },
        ]
    );
    let w = sampled_distances_dijkstras(&edges_to_weighted_adjacency_list(&adj), &vec![3, 1, 4]);
    assert_eq!(w, r);
}

#[test]
fn random_sample_gives_every_unordered_pair_once() {
    let adj = edges_to_adjacency_list(&grid_edges());
    let weighted = edges_to_weighted_adjacency_list(&adj);
    for k in 0..=adj.len() {
        let lists = vec![
            run_random_test_bfs(&adj, k).unwrap(),
            run_random_test_dijkstras(&weighted, k).unwrap(),
        ];
        for r in lists {
            assert_eq!(r.len(), k * (k.max(1) - 1) / 2);
            let mut seen = std::collections::HashSet::new();
            for p in &r {
                assert_ne!(p.node_1, p.node_2);
                let key = (p.node_1.min(p.node_2), p.node_1.max(p.node_2));
                assert!(seen.insert(key));
                assert_eq!(p.distance, breadth_first_search(&adj, p.node_1)[&p.node_2]);
            }
        }
    }
}

#[test]
fn oversized_sample_is_refused() {
    let adj = edges_to_adjacency_list(&diamond_edges());
    assert_eq!(run_random_test_bfs(&adj, 5), Err(GraphError::OversizedSample));
    let weighted = edges_to_weighted_adjacency_list(&adj);
    assert_eq!(run_random_test_dijkstras(&weighted, 5), Err(GraphError::OversizedSample));
    assert_eq!(run_random_test_bfs(&HashMap::new(), 1), Err(GraphError::OversizedSample));
}

#[test]
fn totals_of_one_two_three() {
    let pairs: Vec<DistancePair> = (1..=3)
        .map(|d| DistancePair { node_1: 0, node_2: d, distance: d })
        .collect();
    let t = calc_distance_totals(&pairs).unwrap();
    assert_eq!(t.count, 3);
    assert_eq!(t.sum, 6);
    assert_eq!(t.sum_of_squares, 14);
    let n = t.count as f64;
    let mean = t.sum as f64 / n;
    let variance = (n * t.sum_of_squares as f64 - (t.sum as f64) * (t.sum as f64)) / (n * n);
    assert!((mean - 2.0).abs() < 1e-12);
    assert!((variance.sqrt() - (2.0f64 / 3.0).sqrt()).abs() < 1e-12);
}

#[test]
fn totals_of_largest_distances() {
    let pairs = vec![DistancePair { node_1: 0, node_2: 1, distance: u32::MAX }; 3];
    let t = calc_distance_totals(&pairs).unwrap();
    let m = u32::MAX as u128;
    assert_eq!(t.sum, 3 * m);
    assert_eq!(t.sum_of_squares, 3 * m * m);
}

#[test]
fn totals_of_nothing_are_refused() {
    assert_eq!(calc_distance_totals(&Vec::new()), Err(GraphError::EmptyAggregationInput));
}

#[test]
fn parse_reads_edges_after_header() {
    let data = b"id_1,id_2\n1,2\n2,3\n1,4\n2,4\n3,4\n";
    let edges = parse_edge_data(data).unwrap();
    assert_eq!(edges, diamond_edges());
    let adj = edges_to_adjacency_list(&edges);
    assert_eq!(adj.len(), 4);
}

#[test]
fn parse_accepts_plus_sign_and_extra_columns() {
    let data = b"a,b,c\n+7,4294967295,x\n0,12,y\n";
    assert_eq!(parse_edge_data(data), Ok(vec![(7, 4294967295), (0, 12)]));
}

#[test]
fn parse_refuses_bad_ids() {
    assert_eq!(parse_edge_data(b"a,b\n1,4294967296\n"), Err(EdgeDataError::BadVertexId));
    assert_eq!(parse_edge_data(b"a,b\n1,-2\n"), Err(EdgeDataError::BadVertexId));
    assert_eq!(parse_edge_data(b"a,b\n1,\n"), Err(EdgeDataError::BadVertexId));
    assert_eq!(parse_edge_data(b"a,b\n+,3\n"), Err(EdgeDataError::BadVertexId));
}

#[test]
fn parse_refuses_short_and_ragged_records() {
    assert_eq!(parse_edge_data(b"a\n1\n"), Err(EdgeDataError::MissingEndpoint));
    assert_eq!(parse_edge_data(b"a,b\n1,2\n3\n"), Err(EdgeDataError::Unreadable));
}

#[test]
fn parse_of_header_only_is_empty() {
    assert_eq!(parse_edge_data(b"a,b\n"), Ok(Vec::new()));
}

#[test]
fn parse_u32_reads_decimal() {
    assert_eq!(parse_u32("0"), Some(0));
    assert_eq!(parse_u32("+42"), Some(42));
    assert_eq!(parse_u32("4294967295"), Some(u32::MAX));
    assert_eq!(parse_u32("4294967296"), None);
    assert_eq!(parse_u32(""), None);
    assert_eq!(parse_u32(" 1"), None);
}

#[test]
fn samples_vary_between_runs() {
    let edges: Vec<(u32, u32)> = (0..30).map(|i| (i, (i + 1) % 30)).collect();
    let adj = edges_to_adjacency_list(&edges);
    let first = run_random_test_bfs(&adj, 2).unwrap()[0];
    let mut differs = false;
    for _ in 0..40 {
        let p = run_random_test_bfs(&adj, 2).unwrap()[0];
        if (p.node_1, p.node_2) != (first.node_1, first.node_2) {
            differs = true;
        }
    }
    assert!(differs);
}

#[test]
fn heap_pops_cheapest_first() {
    let mut h = MinHeap::new();
    for (i, c) in [5u32, 3, 9, 3, 0, 7, 1, 8].iter().enumerate() {
        h.push((i as u32, *c));
    }
    assert_eq!(h.len(), 8);
    let mut costs = Vec::new();
    while let Some((_, c)) = h.pop() {
        costs.push(c);
    }
    assert_eq!(costs, vec![0, 1, 3, 3, 5, 7, 8, 9]);
    assert_eq!(h.pop(), None);
}
