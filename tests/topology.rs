use mesh_topology::builder::{build_graph, add_node_to_graph_if_not_exists, BuildError, Observation};
use mesh_topology::graph::{Edge, Graph};

fn obs(source: u32, neighbor: u32, timestamp: u64) -> Observation {
    Observation { source, neighbor, timestamp, rank: 0 }
}

// Observations with weights; for non-negative weights the bit pattern orders them.
fn weighted(list: &[(u32, u32, u64, f64)]) -> (Vec<Observation>, Vec<f64>) {
    let observations = list
        .iter()
        .map(|&(source, neighbor, timestamp, w)| Observation { source, neighbor, timestamp, rank: w.to_bits() })
        .collect();
    let weights = list.iter().map(|t| t.3).collect();
    (observations, weights)
}

#[test]
fn test_init_graph() {
    let observations = vec![
        obs(1, 2, 0),
        obs(1, 3, 0),
        obs(1, 4, 0),
        obs(2, 3, 0),
        obs(2, 4, 0),
        obs(3, 4, 0),
    ];
    let weights = vec![0.9_f64; 6];
    let located = vec![1, 2, 3, 4];
    let graph = build_graph(&observations, &weights, &located).ok().unwrap();
    assert_eq!(graph.get_order(), 4);
    assert_eq!(graph.get_size(), 6);
}

#[test]
fn test_prioritize_earlier_snr() {
    // Weight derived from the timestamp-100 observation is 1.0; the other differs.
    let (observations, weights) = weighted(&[(1, 2, 100, 1.0), (2, 1, 0, 0.25)]);
    let graph = build_graph(&observations, &weights, &vec![1, 2]).ok().unwrap();
    assert_eq!(graph.get_size(), 1);
    assert_eq!(graph.get_edge_weight(1, 2), Some(1.0));
}

#[test]
fn later_observation_wins_in_either_order() {
    let (first, w1) = weighted(&[(1, 2, 0, 0.9), (2, 1, 100, 0.1)]);
    let (second, w2) = weighted(&[(2, 1, 100, 0.1), (1, 2, 0, 0.9)]);
    let g1 = build_graph(&first, &w1, &vec![1, 2]).ok().unwrap();
    let g2 = build_graph(&second, &w2, &vec![1, 2]).ok().unwrap();
    assert_eq!(g1.get_size(), 1);
    assert_eq!(g2.get_size(), 1);
    assert_eq!(g1.get_edge_weight(1, 2), Some(0.1));
    assert_eq!(g1.get_edge_weight(2, 1), Some(0.1));
    assert_eq!(g2.get_edge_weight(1, 2), Some(0.1));
}

#[test]
fn equal_timestamps_prefer_smaller_weight() {
    let (observations, weights) = weighted(&[(7, 3, 5, 3.0), (3, 7, 5, 2.0)]);
    let g = build_graph(&observations, &weights, &vec![3, 7]).ok().unwrap();
    assert_eq!(g.get_size(), 1);
    assert_eq!(g.get_edge_weight(7, 3), Some(2.0));
    // The same snapshot with the two labels swapped keeps the weight.
    let (swapped, sw) = weighted(&[(3, 7, 5, 3.0), (7, 3, 5, 2.0)]);
    let h = build_graph(&swapped, &sw, &vec![3, 7]).ok().unwrap();
    assert_eq!(h.get_edge_weight(3, 7), Some(2.0));
}

#[test]
fn position_only_nodes_are_not_added() {
    let observations = vec![obs(1, 2, 0), obs(2, 3, 0)];
    let g = build_graph(&observations, &vec![1.0_f64, 1.0_f64], &vec![1, 2, 3, 4, 5]).ok().unwrap();
    assert_eq!(g.get_order(), 3);
    assert!(!g.contains_node(4));
    assert!(g.contains_node(3));
}

#[test]
fn missing_location_fails_whole_build() {
    let observations = vec![obs(1, 2, 0), obs(2, 3, 0)];
    match build_graph(&observations, &vec![1.0_f64, 1.0_f64], &vec![1, 2]) {
        Err(BuildError::MissingLocation(id)) => assert_eq!(id, 3),
        Ok(_) => panic!("build must fail"),
    }
}

#[test]
fn self_observation_adds_node_without_edge() {
    let g = build_graph(&vec![obs(9, 9, 1)], &vec![1.0_f64], &vec![9]).ok().unwrap();
    assert_eq!(g.get_order(), 1);
    assert_eq!(g.get_size(), 0);
}

#[test]
fn empty_snapshot_gives_empty_graph() {
    let g = build_graph(&Vec::new(), &Vec::<f64>::new(), &Vec::new()).ok().unwrap();
    assert_eq!(g.get_order(), 0);
    assert_eq!(g.get_size(), 0);
}

#[test]
fn node_insertion_is_idempotent() {
    let mut g: Graph<f64> = Graph::new();
    add_node_to_graph_if_not_exists(&mut g, 5);
    add_node_to_graph_if_not_exists(&mut g, 8);
    let idx = g.get_node_idx(5);
    add_node_to_graph_if_not_exists(&mut g, 5);
    assert_eq!(g.get_order(), 2);
    assert_eq!(g.get_node_idx(5), idx);
    assert_eq!(g.get_node_idx(8), 1);
}

#[test]
fn graph_refuses_parallel_edges_and_self_loops() {
    let mut g: Graph<f64> = Graph::new();
    g.add_node(1);
    g.add_node(2);
    assert!(g.add_edge_from_struct(Edge { a: 1, b: 2, weight: 0.5 }));
    assert!(!g.add_edge_from_struct(Edge { a: 2, b: 1, weight: 0.7 }));
    assert!(!g.add_edge_from_struct(Edge { a: 1, b: 1, weight: 0.7 }));
    assert!(!g.add_edge_from_struct(Edge { a: 1, b: 3, weight: 0.7 }));
    assert_eq!(g.get_size(), 1);
    assert_eq!(g.get_edge_weight(2, 1), Some(0.5));
    assert_eq!(g.get_edge_weight(1, 3), None);
    assert!(g.contains_edge(2, 1));
}
