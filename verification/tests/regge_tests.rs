use spectral_dqg::hypergraph::Hypergraph;
use spectral_dqg::hypergraph_continuum_limit::{closed_neighborhood, hypergraph_from_neighborhoods};
use spectral_dqg::regge::{edge_key, SimplicialComplex, Tetrahedron};

fn cube_six_tets() -> Vec<[usize; 4]> {
    vec![[0, 1, 3, 7], [0, 1, 5, 7], [0, 2, 3, 7], [0, 2, 6, 7], [0, 4, 5, 7], [0, 4, 6, 7]]
}

fn cube_five_tets() -> Vec<[usize; 4]> {
    vec![[0, 3, 5, 6], [1, 0, 3, 5], [2, 0, 3, 6], [4, 0, 5, 6], [7, 3, 5, 6]]
}

fn cube_six_tets_other_diagonal() -> Vec<[usize; 4]> {
    vec![[1, 5, 7, 6], [1, 5, 4, 6], [1, 3, 7, 6], [1, 3, 2, 6], [1, 0, 4, 6], [1, 0, 2, 6]]
}

fn boundary_of_4_simplex_tets() -> Vec<[usize; 4]> {
    vec![[1, 2, 3, 4], [0, 2, 3, 4], [0, 1, 3, 4], [0, 1, 2, 4], [0, 1, 2, 3]]
}

#[test]
fn edge_key_puts_smaller_endpoint_first() {
    assert_eq!(edge_key(5, 2), (2, 5));
    assert_eq!(edge_key(2, 5), (2, 5));
    assert_eq!(edge_key(4, 4), (4, 4));
}

#[test]
fn tetrahedron_edges_in_fixed_order() {
    let t = Tetrahedron { v: [3, 1, 2, 0] };
    assert_eq!(t.edges(), [(1, 3), (2, 3), (0, 3), (1, 2), (0, 1), (0, 2)]);
}

#[test]
fn small_fan_shares_its_hinge() {
    let complex = SimplicialComplex::from_tetrahedra(vec![[0, 1, 2, 3], [0, 1, 3, 4], [0, 1, 4, 2]]);
    assert_eq!(complex.hinge_multiplicity(&(0, 1)), 3);
    assert_eq!(complex.hinge_multiplicity(&(0, 2)), 2);
    assert_eq!(complex.hinge_multiplicity(&(2, 3)), 1);
    assert_eq!(complex.hinge_multiplicity(&(3, 9)), 0);
    assert_eq!(complex.edges.len(), 10);
}

#[test]
fn flat_cube_six_tets_share_the_main_diagonal() {
    let complex = SimplicialComplex::from_tetrahedra(cube_six_tets());
    assert_eq!(
        complex.hinge_multiplicity(&(0, 7)),
        6,
        "all 6 tets should share the main diagonal as their common hinge"
    );
    assert_eq!(complex.edge_to_tets[&(0, 7)], vec![0, 1, 2, 3, 4, 5]);
    let mut sorted = complex.edges.clone();
    sorted.sort();
    sorted.dedup();
    assert_eq!(sorted, complex.edges);
    assert_eq!(complex.edges.len(), 19);
}

#[test]
fn other_diagonal_triangulation_shares_its_own_diagonal() {
    let complex = SimplicialComplex::from_tetrahedra(cube_six_tets_other_diagonal());
    assert_eq!(complex.hinge_multiplicity(&(1, 6)), 6);
    assert_eq!(complex.hinge_multiplicity(&(0, 7)), 0);
}

#[test]
fn five_tet_cube_has_exactly_the_central_tet_edges_as_hinges() {
    let complex = SimplicialComplex::from_tetrahedra(cube_five_tets());
    let hinges: Vec<_> = complex.edges.iter().filter(|e| complex.hinge_multiplicity(e) >= 3).cloned().collect();
    assert_eq!(hinges, vec![(0, 3), (0, 5), (0, 6), (3, 5), (3, 6), (5, 6)]);
    let total: usize = complex.edges.iter().map(|e| complex.hinge_multiplicity(e)).sum();
    assert_eq!(total, 6 * 5);
}

#[test]
fn boundary_of_4_simplex_is_closed() {
    let complex = SimplicialComplex::from_tetrahedra(boundary_of_4_simplex_tets());
    assert_eq!(complex.edges.len(), 10);
    for e in &complex.edges {
        assert_eq!(complex.hinge_multiplicity(e), 3, "edge {e:?}");
    }
}

#[test]
fn degenerate_tetrahedron_records_repeated_edges() {
    let complex = SimplicialComplex::from_tetrahedra(vec![[0, 0, 1, 2]]);
    assert_eq!(complex.edges, vec![(0, 0), (0, 1), (0, 2), (1, 2)]);
    assert_eq!(complex.edge_to_tets[&(0, 1)], vec![0, 0]);
    assert_eq!(complex.hinge_multiplicity(&(0, 0)), 1);
}

#[test]
fn closed_neighborhood_sorts_and_dedups() {
    assert_eq!(closed_neighborhood(&vec![7, 2, 7, 5], 4), vec![2, 4, 5, 7]);
    assert_eq!(closed_neighborhood(&vec![], 3), vec![3]);
    assert_eq!(closed_neighborhood(&vec![3, 1], 3), vec![1, 3]);
}

#[test]
fn hypergraph_from_neighborhoods_skips_lonely_vertices() {
    let nb = vec![vec![2, 1], vec![], vec![0], vec![3, 3]];
    let h = hypergraph_from_neighborhoods(&nb, 1.0f64);
    assert_eq!(h.n_vertices, 4);
    let members: Vec<Vec<usize>> = h.hyperedges.iter().map(|(m, _)| m.clone()).collect();
    assert_eq!(members, vec![vec![0, 1, 2], vec![0, 2]]);
    assert!(h.hyperedges.iter().all(|(_, w)| *w == 1.0));
}

#[test]
fn hypergraph_add_hyperedge_appends() {
    let mut h: Hypergraph<f64> = Hypergraph::new(3);
    h.add_hyperedge(vec![0, 2], 0.5);
    h.add_hyperedge(vec![0, 1, 2], 1.0);
    assert_eq!(h.hyperedges.len(), 2);
    assert_eq!(h.hyperedges[1].0, vec![0, 1, 2]);
}

#[test]
fn knn_style_neighborhoods_give_hyperedges_of_equal_size() {
    // Every vertex lists two distinct other vertices, as kNN with k = 2 does.
    let nb = vec![vec![1, 4], vec![2, 0], vec![1, 3], vec![4, 2], vec![3, 0]];
    let h = hypergraph_from_neighborhoods(&nb, 2u64);
    assert_eq!(h.hyperedges.len(), 5);
    assert!(h.hyperedges.iter().all(|(m, w)| m.len() == 3 && *w == 2));
    assert_eq!(h.hyperedges[3].0, vec![2, 3, 4]);
}
