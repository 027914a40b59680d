use spanning_trees::brute::{
    brute_max_spanning_trees, candidate_pairs, heuristic_vertex_count, new_search_markers,
    partial_brute_max, partial_brute_max_recursive, search_size_fits, search_vertex_count,
};
use spanning_trees::graph::LapGraph;
use spanning_trees::graph_type::{Multigraph, Simple};
use spanning_trees::parallel::{claim_choice, reduce_results, search_from_choice};

fn sorted_degrees<T: spanning_trees::graph_type::GraphType>(g: &LapGraph<T>) -> Vec<usize> {
    let mut d: Vec<usize> = (0..g.vertex_count()).map(|v| g.degree(v)).collect();
    d.sort();
    d
}

fn edge_total<T: spanning_trees::graph_type::GraphType>(g: &LapGraph<T>) -> usize {
    g.edge_list().len()
}

#[test]
fn candidate_pairs_in_order() {
    assert_eq!(
        candidate_pairs(4),
        vec![(0, 1), (0, 2), (0, 3), (1, 2), (1, 3), (2, 3)]
    );
    assert!(candidate_pairs(1).is_empty());
    assert!(candidate_pairs(0).is_empty());
}

#[test]
fn markers_start_clear() {
    let m = new_search_markers(3, 4);
    assert_eq!(m, vec![vec![false; 4]; 3]);
}

#[test]
fn heuristic_sizes() {
    assert_eq!(heuristic_vertex_count(1), 2);
    assert_eq!(heuristic_vertex_count(5), 4);
    assert_eq!(heuristic_vertex_count(6), 5);
    assert_eq!(heuristic_vertex_count(7), 4);
    assert_eq!(heuristic_vertex_count(10), 6);
}

#[test]
fn vertex_count_grows_with_binomial() {
    // C(5, 4) = 5 is below 8: the heuristic size stays.
    assert_eq!(search_vertex_count(5, 8), 4);
    // C(5, 4) = 5 reaches 5: grow to 5, which is m.
    assert_eq!(search_vertex_count(5, 5), 5);
    // C(10, 6) = 210, C(10, 7) = 120, C(10, 8) = 45 < 100.
    assert_eq!(search_vertex_count(10, 100), 8);
    // n never grows past m.
    assert_eq!(search_vertex_count(10, 0), 10);
}

#[test]
fn size_fits_limits() {
    assert!(search_size_fits(4, 5));
    assert!(search_size_fits(0, 0));
    assert!(search_size_fits(16, 16));
    assert!(!search_size_fits(40, 40));
}

#[test]
fn search_finds_triangle() {
    let g = partial_brute_max::<Simple>(3, 3);
    assert_eq!(g.count_spanning_trees(), 3);
    assert_eq!(sorted_degrees(&g), vec![2, 2, 2]);
}

#[test]
fn search_five_edges_on_four_vertices() {
    let g = partial_brute_max::<Simple>(5, 4);
    assert_eq!(g.count_spanning_trees(), 8);
    assert_eq!(edge_total(&g), 5);
}

#[test]
fn search_tree_budget_gives_tree() {
    let g = partial_brute_max::<Simple>(2, 3);
    assert_eq!(g.count_spanning_trees(), 1);
}

#[test]
fn multigraph_search_doubles_edges() {
    let g = partial_brute_max::<Multigraph>(4, 3);
    assert_eq!(g.count_spanning_trees(), 5);
    let doubled = (0..3).any(|a| (0..3).any(|b| a != b && g.laplacian_entry(a, b) == -2));
    assert!(doubled);
    assert_eq!(edge_total(&g), 4);
}

#[test]
fn multigraph_search_repeats_the_first_pair() {
    // With repeated edges allowed, every depth draws from the full list.
    let g = partial_brute_max::<Multigraph>(2, 2);
    assert_eq!(g.count_spanning_trees(), 2);
    assert_eq!(g.edge_list(), vec![(0, 1), (0, 1)]);
}

#[test]
fn large_graph_with_one_edge_counts_one() {
    let mut g = LapGraph::<Simple>::empty(40);
    g.add_edge(3, 37);
    assert!(g.count_fits_check());
    assert_eq!(g.count_spanning_trees(), 1);
    assert!(LapGraph::<Simple>::empty(40).count_fits_check());
    assert_eq!(LapGraph::<Simple>::empty(40).count_spanning_trees(), 0);
}

#[test]
fn recursive_step_at_depth_zero_records_graph() {
    let mut working = LapGraph::<Simple>::complete(3);
    let mut target = LapGraph::<Simple>::empty(3);
    let mut best: i128 = 0;
    let mut comps: usize = 0;
    let choices = candidate_pairs(3);
    let mut markers = new_search_markers(0, 3);
    partial_brute_max_recursive(
        &mut working, &mut target, &mut best, &mut comps, 0, &choices, 0, &mut markers,
    );
    assert_eq!(best, 3);
    assert_eq!(comps, 1);
    assert_eq!(target.count_spanning_trees(), 3);
}

#[test]
fn estimator_five_edges_beats_brute_force() {
    let res = brute_max_spanning_trees(5, false);
    let found = res.count_spanning_trees();
    let pairs = candidate_pairs(5);
    let mut best = 0;
    for mask in 0u32..(1 << pairs.len()) {
        if mask.count_ones() != 5 {
            continue;
        }
        let mut g = LapGraph::<Simple>::empty(5);
        for (t, &(a, b)) in pairs.iter().enumerate() {
            if mask & (1 << t) != 0 {
                g.add_edge(a, b);
            }
        }
        best = best.max(g.count_spanning_trees());
    }
    assert_eq!(best, 8);
    assert!(found >= best);
    assert_eq!(found, 8);
}

#[test]
fn estimator_small_budgets() {
    assert_eq!(brute_max_spanning_trees(1, false).count_spanning_trees(), 1);
    assert_eq!(brute_max_spanning_trees(3, false).count_spanning_trees(), 3);
    assert_eq!(brute_max_spanning_trees(3, true).count_spanning_trees(), 3);
    assert_eq!(brute_max_spanning_trees(6, false).count_spanning_trees(), 16);
}

#[test]
fn claim_moves_cursor() {
    let mut cursor = 0usize;
    assert_eq!(claim_choice(&mut cursor, 2), Some(0));
    assert_eq!(claim_choice(&mut cursor, 2), Some(1));
    assert_eq!(claim_choice(&mut cursor, 2), None);
    assert_eq!(cursor, 2);
}

#[test]
fn reduce_picks_first_strict_best() {
    let a = LapGraph::<Simple>::complete(3);
    let mut b = LapGraph::<Simple>::empty(3);
    b.add_edge(0, 1);
    let mut c = LapGraph::<Simple>::empty(3);
    c.add_edge(1, 2);
    let results = vec![(1i128, b), (3i128, a), (3i128, c)];
    let r = reduce_results(&results, 3);
    assert_eq!(r.count_spanning_trees(), 3);
    let none = reduce_results(&vec![(0i128, LapGraph::<Simple>::complete(3))], 3);
    assert_eq!(none.count_spanning_trees(), 0);
}

fn one_worker<T: spanning_trees::graph_type::GraphType>(m: usize, k: usize) -> (i128, LapGraph<T>) {
    let choices = candidate_pairs(k);
    let mut cursor = 0usize;
    let mut working = LapGraph::<T>::empty(k);
    let mut target = LapGraph::<T>::empty(k);
    let mut best: i128 = 0;
    let mut comps: usize = 0;
    let mut markers = new_search_markers(m - 1, k);
    while let Some(index) = claim_choice(&mut cursor, choices.len()) {
        search_from_choice(
            &mut working, &mut target, &mut best, &mut comps, m, &choices, index, &mut markers,
        );
    }
    let results = vec![(best, target)];
    (best, reduce_results(&results, k))
}

#[test]
fn single_worker_matches_sequential() {
    for &(m, k) in &[(3usize, 3usize), (4, 4), (5, 4), (5, 5), (6, 5)] {
        let seq = partial_brute_max::<Simple>(m, k);
        let (best, par) = one_worker::<Simple>(m, k);
        assert_eq!(best, seq.count_spanning_trees());
        assert_eq!(par.count_spanning_trees(), seq.count_spanning_trees());
        assert_eq!(edge_total(&par), edge_total(&seq));
        assert_eq!(sorted_degrees(&par), sorted_degrees(&seq));
    }
}

#[test]
fn single_worker_matches_sequential_multigraph() {
    for &(m, k) in &[(2usize, 2usize), (3, 3), (4, 3), (4, 4), (5, 4)] {
        let seq = partial_brute_max::<Multigraph>(m, k);
        let (best, par) = one_worker::<Multigraph>(m, k);
        assert_eq!(best, seq.count_spanning_trees());
        assert_eq!(par.count_spanning_trees(), seq.count_spanning_trees());
        assert_eq!(edge_total(&par), edge_total(&seq));
    }
}

#[test]
fn multigraph_at_least_simple() {
    for m in 1..7 {
        let multi = brute_max_spanning_trees(m, true).count_spanning_trees();
        let simple = brute_max_spanning_trees(m, false).count_spanning_trees();
        assert!(multi >= simple);
    }
}

#[test]
fn estimator_five_edges_uses_four_vertices() {
    let g = brute_max_spanning_trees(5, false);
    assert_eq!(g.vertex_count(), 4);
    assert_eq!(g.count_spanning_trees(), 8);
    assert_eq!(g.edge_list().len(), 5);
}
