use mesh_topology::connectivity::{articulation_points, reachable, AnalysisError};
use mesh_topology::graph::{Edge, Graph};

fn graph_of(nodes: &[u32], links: &[(u32, u32)]) -> Graph<f64> {
    let mut g: Graph<f64> = Graph::new();
    for n in nodes {
        g.add_node(*n);
    }
    for (a, b) in links {
        assert!(g.add_edge_from_struct(Edge { a: *a, b: *b, weight: 1.0 }));
    }
    g
}

#[test]
fn path_has_middle_articulation_point() {
    let g = graph_of(&[1, 2, 3], &[(1, 2), (2, 3)]);
    assert_eq!(articulation_points(&g).ok().unwrap(), vec![2]);
}

#[test]
fn triangle_has_no_articulation_point() {
    let g = graph_of(&[1, 2, 3], &[(1, 2), (2, 3), (3, 1)]);
    assert!(articulation_points(&g).ok().unwrap().is_empty());
}

#[test]
fn empty_graph_fails_articulation_points() {
    let g: Graph<f64> = Graph::new();
    assert!(matches!(articulation_points(&g), Err(AnalysisError::EmptyGraph)));
}

#[test]
fn relabeled_path_keeps_its_articulation_point() {
    let g = graph_of(&[30, 10, 20], &[(30, 10), (10, 20)]);
    assert_eq!(articulation_points(&g).ok().unwrap(), vec![10]);
}

#[test]
fn bridge_between_two_triangles() {
    let g = graph_of(
        &[1, 2, 3, 4, 5, 6],
        &[(1, 2), (2, 3), (3, 1), (3, 4), (4, 5), (5, 6), (6, 4)],
    );
    let mut aps = articulation_points(&g).ok().unwrap();
    aps.sort();
    assert_eq!(aps, vec![3, 4]);
}

#[test]
fn reachable_respects_avoided_node() {
    let g = graph_of(&[1, 2, 3, 4], &[(1, 2), (2, 3)]);
    let mut all = reachable(&g, 1, None);
    all.sort();
    assert_eq!(all, vec![1, 2, 3]);
    assert_eq!(reachable(&g, 1, Some(2)), vec![1]);
    assert_eq!(reachable(&g, 4, None), vec![4]);
}
