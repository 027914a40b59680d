use spanning_trees::graph::LapGraph;
use spanning_trees::graph_type::{Erased, GraphType, Multigraph, Simple};

fn graph_from<T: GraphType>(n: usize, edges: &[(usize, usize)]) -> LapGraph<T> {
    let mut g = LapGraph::<T>::empty(n);
    for &(a, b) in edges {
        g.add_edge(a, b);
    }
    g
}

fn matrix_of<T: GraphType>(g: &LapGraph<T>) -> Vec<Vec<i64>> {
    let n = g.vertex_count();
    (0..n)
        .map(|i| (0..n).map(|j| g.laplacian_entry(i, j)).collect())
        .collect()
}

#[test]
fn descriptors_report_their_flags() {
    assert!(!Simple::self_loops());
    assert!(!Simple::multi_edges());
    assert!(Multigraph::self_loops());
    assert!(Multigraph::multi_edges());
    assert!(Erased::self_loops());
    assert!(Erased::multi_edges());
}

#[test]
fn empty_graph_is_all_zero() {
    let g = LapGraph::<Simple>::empty(4);
    assert_eq!(g.vertex_count(), 4);
    assert_eq!(matrix_of(&g), vec![vec![0i64; 4]; 4]);
    assert_eq!(g.count_spanning_trees(), 0);
    assert!(!g.connected());
    assert!(g.regular());
    assert!(g.edge_list().is_empty());
}

#[test]
fn complete_graph_laplacian() {
    let g = LapGraph::<Simple>::complete(3);
    assert_eq!(
        matrix_of(&g),
        vec![vec![2, -1, -1], vec![-1, 2, -1], vec![-1, -1, 2]]
    );
    assert_eq!(g.degree(1), 2);
    assert!(g.regular());
}

#[test]
fn add_edge_updates_laplacian() {
    let mut g = LapGraph::<Simple>::empty(3);
    assert!(g.add_edge(0, 2));
    assert_eq!(
        matrix_of(&g),
        vec![vec![1, 0, -1], vec![0, 0, 0], vec![-1, 0, 1]]
    );
    assert_eq!(g.degree(0), 1);
    assert_eq!(g.degree(1), 0);
    assert!(g.isolated(1));
    assert!(!g.isolated(2));
}

#[test]
fn simple_graph_refuses_repeated_edge() {
    let mut g = LapGraph::<Simple>::empty(3);
    assert!(g.add_edge(0, 1));
    let before = matrix_of(&g);
    assert!(!g.add_edge(1, 0));
    assert_eq!(matrix_of(&g), before);
}

#[test]
fn multigraph_repeats_edge() {
    let mut g = LapGraph::<Multigraph>::empty(2);
    assert!(g.add_edge(0, 1));
    assert!(g.add_edge(0, 1));
    assert_eq!(g.laplacian_entry(0, 1), -2);
    assert_eq!(g.degree(0), 2);
    assert_eq!(g.count_spanning_trees(), 2);
}

#[test]
fn remove_missing_edge_is_noop() {
    let mut g = LapGraph::<Simple>::empty(3);
    assert!(!g.remove_edge(0, 1));
    assert_eq!(matrix_of(&g), vec![vec![0i64; 3]; 3]);
}

#[test]
fn add_then_remove_restores_simple() {
    let mut g = graph_from::<Simple>(4, &[(0, 1), (1, 2)]);
    let before = matrix_of(&g);
    assert!(g.add_edge(2, 3));
    assert!(g.remove_edge(2, 3));
    assert_eq!(matrix_of(&g), before);
}

#[test]
fn multigraph_add_twice_remove_once() {
    let mut g = LapGraph::<Multigraph>::empty(3);
    assert!(g.add_edge(0, 2));
    assert!(g.add_edge(0, 2));
    assert!(g.remove_edge(0, 2));
    assert_eq!(g.laplacian_entry(0, 2), -1);
    assert_eq!(g.laplacian_entry(2, 0), -1);
    assert_eq!(g.degree(0), 1);
    assert_eq!(g.degree(2), 1);
}

#[test]
fn single_edge_has_one_spanning_tree() {
    let g = graph_from::<Simple>(2, &[(0, 1)]);
    assert_eq!(g.count_spanning_trees(), 1);
    let h = graph_from::<Simple>(6, &[(4, 1)]);
    assert_eq!(h.count_spanning_trees(), 1);
}

#[test]
fn cayley_formula_small_complete_graphs() {
    assert_eq!(LapGraph::<Simple>::complete(2).count_spanning_trees(), 1);
    assert_eq!(LapGraph::<Simple>::complete(3).count_spanning_trees(), 3);
    assert_eq!(LapGraph::<Simple>::complete(4).count_spanning_trees(), 16);
    assert_eq!(LapGraph::<Simple>::complete(5).count_spanning_trees(), 125);
    assert_eq!(LapGraph::<Simple>::complete(6).count_spanning_trees(), 1296);
}

#[test]
fn disconnected_graph_has_no_spanning_tree() {
    let g = graph_from::<Simple>(4, &[(0, 1), (2, 3)]);
    assert_eq!(g.count_spanning_trees(), 0);
    assert!(!g.connected());
    let h = graph_from::<Simple>(7, &[(0, 1), (1, 2), (2, 0), (4, 5), (5, 6)]);
    assert_eq!(h.count_spanning_trees(), 0);
}

#[test]
fn cycle_and_path_counts() {
    let cycle = graph_from::<Simple>(5, &[(0, 1), (1, 2), (2, 3), (3, 4), (4, 0)]);
    assert_eq!(cycle.count_spanning_trees(), 5);
    let path = graph_from::<Simple>(4, &[(0, 1), (1, 2), (2, 3)]);
    assert_eq!(path.count_spanning_trees(), 1);
    let k4_minus_edge = graph_from::<Simple>(4, &[(0, 1), (0, 2), (0, 3), (1, 2), (1, 3)]);
    assert_eq!(k4_minus_edge.count_spanning_trees(), 8);
}

#[test]
fn isolated_vertices_do_not_block_count() {
    let g = graph_from::<Simple>(5, &[(1, 3), (3, 4), (4, 1)]);
    assert_eq!(g.count_spanning_trees(), 3);
    assert!(g.connected());
    assert!(!g.fully_connected());
}

#[test]
fn fully_connected_cases() {
    assert!(LapGraph::<Simple>::empty(1).fully_connected());
    assert!(!LapGraph::<Simple>::empty(0).fully_connected());
    assert!(!LapGraph::<Simple>::empty(2).fully_connected());
    assert!(LapGraph::<Simple>::complete(4).fully_connected());
    let path = graph_from::<Simple>(3, &[(0, 1), (1, 2)]);
    assert!(path.fully_connected());
}

#[test]
fn regular_ignores_isolated_vertices() {
    let g = graph_from::<Simple>(5, &[(0, 1), (1, 2), (2, 0)]);
    assert!(g.regular());
    let star = graph_from::<Simple>(4, &[(0, 1), (0, 2), (0, 3)]);
    assert!(!star.regular());
}

#[test]
fn is_adjacent_checks_either_endpoint() {
    let g = graph_from::<Simple>(4, &[(0, 1)]);
    assert!(g.is_adjacent(0, 2));
    assert!(g.is_adjacent(3, 1));
    assert!(!g.is_adjacent(2, 3));
}

#[test]
fn transfer_copies_graph() {
    let g = graph_from::<Simple>(3, &[(0, 1), (1, 2)]);
    let mut other = LapGraph::<Simple>::empty(3);
    g.transfer(&mut other);
    assert_eq!(matrix_of(&other), matrix_of(&g));
    let mut bigger = LapGraph::<Simple>::empty(5);
    g.transfer(&mut bigger);
    assert_eq!(bigger.vertex_count(), 3);
}

#[test]
fn convert_and_erase_keep_data() {
    let g = graph_from::<Simple>(3, &[(0, 1), (1, 2)]);
    let before = matrix_of(&g);
    let m: LapGraph<Multigraph> = g.convert_type();
    assert_eq!(matrix_of(&m), before);
    let e = m.erase_type();
    assert_eq!(matrix_of(&e), before);
}

#[test]
fn edge_list_repeats_multi_edges() {
    let g = graph_from::<Multigraph>(4, &[(2, 0), (1, 3), (0, 2), (0, 1)]);
    assert_eq!(g.edge_list(), vec![(0, 1), (0, 2), (0, 2), (1, 3)]);
}
