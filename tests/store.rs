use mesh_topology::algo_store::{AlgoStore, AnalysisResult};
use mesh_topology::graph::{Edge, Graph};

#[test]
fn fresh_store_is_empty_and_set_aps_touches_one_slot() {
    let mut store: AlgoStore<f64> = AlgoStore::new();
    assert!(matches!(store.get_aps(), AnalysisResult::Empty));
    assert!(matches!(store.get_mincut(), AnalysisResult::Empty));
    assert!(matches!(store.get_diff_cent(), AnalysisResult::Empty));
    assert!(matches!(store.get_most_sim_t(), AnalysisResult::Empty));
    assert!(matches!(store.get_pred_state(), AnalysisResult::Empty));
    store.set_aps(AnalysisResult::Success(vec![3, 1]));
    match store.get_aps() {
        AnalysisResult::Success(v) => assert_eq!(v, &vec![3, 1]),
        _ => panic!("expected success"),
    }
    assert!(matches!(store.get_mincut(), AnalysisResult::Empty));
    assert!(matches!(store.get_diff_cent(), AnalysisResult::Empty));
    assert!(matches!(store.get_most_sim_t(), AnalysisResult::Empty));
    assert!(matches!(store.get_pred_state(), AnalysisResult::Empty));
}

#[test]
fn slots_record_errors_and_resets() {
    let mut store: AlgoStore<f64> = AlgoStore::new();
    store.set_mincut(AnalysisResult::Error("disconnected".to_string()));
    match store.get_mincut() {
        AnalysisResult::Error(reason) => assert_eq!(reason, "disconnected"),
        _ => panic!("expected error"),
    }
    store.set_mincut(AnalysisResult::Success(vec![Edge { a: 1, b: 2, weight: 2.5 }]));
    match store.get_mincut() {
        AnalysisResult::Success(edges) => {
            assert_eq!(edges.len(), 1);
            assert_eq!(edges[0].weight, 2.5);
        }
        _ => panic!("expected success"),
    }
    store.set_diff_cent(AnalysisResult::Success(vec![(1, 0.75)]));
    store.set_diff_cent(AnalysisResult::Empty);
    assert!(matches!(store.get_diff_cent(), AnalysisResult::Empty));
    assert!(matches!(store.get_aps(), AnalysisResult::Empty));
}

#[test]
fn graph_valued_setters_record_success() {
    let mut store: AlgoStore<f64> = AlgoStore::new();
    let mut g: Graph<f64> = Graph::new();
    g.add_node(4);
    store.set_pred_state(g);
    match store.get_pred_state() {
        AnalysisResult::Success(p) => assert_eq!(p.get_order(), 1),
        _ => panic!("expected success"),
    }
    assert!(matches!(store.get_most_sim_t(), AnalysisResult::Empty));
    let mut h: Graph<f64> = Graph::new();
    h.add_node(1);
    h.add_node(2);
    store.set_most_sim_t(h);
    match store.get_most_sim_t() {
        AnalysisResult::Success(p) => assert_eq!(p.get_order(), 2),
        _ => panic!("expected success"),
    }
}
