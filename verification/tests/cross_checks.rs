use spectral_dqg::continuum_limit::{
    count_components, multigraph_from_stubs, random_regular_graph, random_simple_regular_graph,
    simple_graph_from_stubs, stub_list,
};
use spectral_dqg::hypergraph::{clique_pairs, WeightedGraph};
use spectral_dqg::nonbacktracking::{build_arcs, count_closed_nbt_walks_bruteforce, hashimoto_nonzeros};

/// The clique expansion of the eight-vertex sample hypergraph (hyperedges
/// 01, 12, 23, 30, 012, 45, 56, 67, 74, 34, 257, all of weight 1).
fn sample_graph() -> WeightedGraph<f64> {
    WeightedGraph {
        n: 8,
        edges: vec![
            ((0, 1), 1.5),
            ((1, 2), 1.5),
            ((2, 3), 1.0),
            ((0, 3), 1.0),
            ((0, 2), 0.5),
            ((4, 5), 1.0),
            ((5, 6), 1.0),
            ((6, 7), 1.0),
            ((4, 7), 1.0),
            ((3, 4), 1.0),
            ((2, 5), 0.5),
            ((2, 7), 0.5),
            ((5, 7), 0.5),
        ],
    }
}

fn cycle(n: usize) -> WeightedGraph<f64> {
    WeightedGraph { n, edges: (0..n).map(|i| ((i, (i + 1) % n), 1.0)).collect() }
}

/// Tr(B^k) computed by dense matrix powers of the Hashimoto matrix.
fn trace_bk(m: usize, nonzeros: &[(usize, usize)], k: usize) -> f64 {
    if k == 0 {
        return m as f64;
    }
    let mut b = vec![vec![0.0f64; m]; m];
    for &(i, j) in nonzeros {
        b[i][j] = 1.0;
    }
    let mut acc = b.clone();
    for _ in 1..k {
        let mut next = vec![vec![0.0f64; m]; m];
        for i in 0..m {
            for l in 0..m {
                if acc[i][l] != 0.0 {
                    for j in 0..m {
                        next[i][j] += acc[i][l] * b[l][j];
                    }
                }
            }
        }
        acc = next;
    }
    (0..m).map(|i| acc[i][i]).sum()
}

#[test]
fn trace_bk_matches_bruteforce_closed_walk_count() {
    let g = sample_graph();
    let arcs = build_arcs(&g);
    let nz = hashimoto_nonzeros(&arcs);
    for k in 0..=6 {
        let tr = trace_bk(arcs.arcs.len(), &nz, k);
        let bf = count_closed_nbt_walks_bruteforce(&g, k) as f64;
        assert!((tr - bf).abs() < 1e-6, "k={k}: Tr(B^k)={tr} but brute-force count={bf}");
    }
}

#[test]
fn no_closed_nbt_walks_of_length_one_or_two() {
    let g = sample_graph();
    assert_eq!(count_closed_nbt_walks_bruteforce(&g, 1), 0);
    assert_eq!(count_closed_nbt_walks_bruteforce(&g, 2), 0);
}

#[test]
fn simple_regular_sampler_is_actually_simple_and_d_regular() {
    let d = 4;
    for &n in &[20usize, 100] {
        let g = random_simple_regular_graph(n, d, 7, 5000).expect("a simple sample within the attempt budget");
        assert_eq!(g.n, n);
        assert_eq!(g.edges.len(), n * d / 2, "wrong edge count for a simple d-regular graph");
        let mut seen = std::collections::HashSet::new();
        let mut degree = vec![0usize; n];
        for &((a, b), w) in &g.edges {
            assert_ne!(a, b, "self-loop found: sampler is not producing a simple graph");
            assert_eq!(w, 1, "multi-edge weight found: {w}");
            assert!(seen.insert((a.min(b), a.max(b))), "duplicate edge found");
            degree[a] += 1;
            degree[b] += 1;
        }
        for v in 0..n {
            assert_eq!(degree[v], d, "vertex {v} is not exactly d-regular");
        }
        assert_eq!(count_components(&g), 1, "expected a connected sample");
    }
}

#[test]
fn cycle_closed_walks_go_all_the_way_round() {
    // On the n-cycle the only closed non-backtracking walks run around the
    // whole cycle, in either direction, from any of its n vertices.
    let g = cycle(5);
    assert_eq!(count_closed_nbt_walks_bruteforce(&g, 0), 10);
    for k in 1..=4 {
        assert_eq!(count_closed_nbt_walks_bruteforce(&g, k), 0);
    }
    assert_eq!(count_closed_nbt_walks_bruteforce(&g, 5), 10);
    assert_eq!(count_closed_nbt_walks_bruteforce(&g, 7), 0);
    assert_eq!(count_closed_nbt_walks_bruteforce(&g, 10), 10);
}

#[test]
fn triangle_with_pendant_walks() {
    // Triangle 0-1-2 with a pendant vertex 3 hanging off 0: the pendant
    // edge can never be part of a closed non-backtracking walk.
    let g = WeightedGraph { n: 4, edges: vec![((0, 1), 1.0), ((1, 2), 1.0), ((2, 0), 1.0), ((0, 3), 1.0)] };
    assert_eq!(count_closed_nbt_walks_bruteforce(&g, 3), 6);
    assert_eq!(count_closed_nbt_walks_bruteforce(&g, 4), 0);
    assert_eq!(count_closed_nbt_walks_bruteforce(&g, 6), 6);
}

#[test]
fn neighbors_collapse_multi_edges_in_first_appearance_order() {
    let g = WeightedGraph { n: 4, edges: vec![((2, 0), 1.0), ((0, 1), 2.0), ((2, 0), 3.0), ((3, 3), 1.0)] };
    let adj = g.neighbors();
    assert_eq!(adj, vec![vec![2, 1], vec![0], vec![0], vec![3]]);
}

#[test]
fn arcs_are_two_per_edge_on_a_simple_graph() {
    let g = sample_graph();
    let arcs = build_arcs(&g);
    assert_eq!(arcs.arcs.len(), 2 * g.edges.len());
    assert_eq!(arcs.arcs[0], (0, 1));
    let tri = WeightedGraph { n: 3, edges: vec![((0, 1), 1.0), ((1, 2), 1.0), ((2, 0), 1.0)] };
    let a = build_arcs(&tri);
    assert_eq!(a.arcs, vec![(0, 1), (0, 2), (1, 0), (1, 2), (2, 1), (2, 0)]);
    // On a triangle every arc has exactly one non-backtracking successor.
    let nz = hashimoto_nonzeros(&a);
    assert_eq!(nz, vec![(0, 3), (1, 4), (2, 1), (3, 5), (4, 2), (5, 0)]);
}

#[test]
fn components_of_two_disjoint_triangles_and_an_isolated_vertex() {
    let g = WeightedGraph {
        n: 7,
        edges: vec![((0, 1), 1.0), ((1, 2), 1.0), ((2, 0), 1.0), ((3, 4), 1.0), ((4, 5), 1.0), ((5, 3), 1.0)],
    };
    assert_eq!(count_components(&g), 3);
    let empty: WeightedGraph<f64> = WeightedGraph { n: 0, edges: vec![] };
    assert_eq!(count_components(&empty), 0);
}

#[test]
fn configuration_multigraph_has_the_right_degrees() {
    let (n, d) = (30usize, 3usize);
    let g = random_regular_graph(n, d, 11);
    assert_eq!(g.n, n);
    let mut degree = vec![0u64; n];
    let mut seen = std::collections::HashSet::new();
    let mut total = 0u64;
    for &((a, b), w) in &g.edges {
        assert!(a < b && b < n);
        assert!(w >= 1);
        assert!(seen.insert((a, b)), "repeated edge in the merged multigraph");
        degree[a] += w;
        degree[b] += w;
        total += w;
    }
    assert!(total <= (n * d / 2) as u64);
    // Unshuffled, every stub would pair with its own copy and leave no edge.
    assert!(total > 0);
    for v in 0..n {
        // Each dropped self-loop takes two stubs away from its vertex.
        assert!(degree[v] <= d as u64 && (d as u64 - degree[v]) % 2 == 0);
    }
}

#[test]
fn random_simple_regular_graph_edge_cases() {
    assert!(random_simple_regular_graph(10, 3, 1, 0).is_none());
    let g = random_simple_regular_graph(6, 0, 1, 1).expect("d = 0 always pairs");
    assert_eq!(g.edges.len(), 0);
    let m = random_simple_regular_graph(10, 1, 3, 1).expect("d = 1 always pairs");
    assert_eq!(m.edges.len(), 5);
    let mut covered = vec![false; 10];
    for &((a, b), w) in &m.edges {
        assert!(a < b && w == 1);
        assert!(!covered[a] && !covered[b]);
        covered[a] = true;
        covered[b] = true;
    }
    assert!(covered.iter().all(|&c| c));
    assert!(random_simple_regular_graph(3, 4, 1, 50).is_none());
    assert!(random_simple_regular_graph(2, 2, 9, 50).is_none());
}

#[test]
fn no_closed_walks_of_length_one_even_through_a_loop() {
    // A loop u -> u reverses itself at the seam, so it never closes into a
    // non-backtracking walk of length one.
    let g = WeightedGraph { n: 3, edges: vec![((0, 1), 1.0), ((1, 2), 1.0), ((2, 2), 1.0)] };
    assert_eq!(count_closed_nbt_walks_bruteforce(&g, 1), 0);
    assert_eq!(count_closed_nbt_walks_bruteforce(&g, 2), 0);
    assert_eq!(count_closed_nbt_walks_bruteforce(&g, 0), 5);
}

#[test]
fn stub_list_repeats_each_vertex_d_times() {
    assert_eq!(stub_list(3, 2), vec![0, 0, 1, 1, 2, 2]);
    assert_eq!(stub_list(4, 0), Vec::<usize>::new());
}

#[test]
fn simple_pairing_of_given_stubs() {
    let g = simple_graph_from_stubs(4, &vec![0, 1, 3, 2, 1, 2, 3, 0]).expect("a simple pairing");
    assert_eq!(g.n, 4);
    assert_eq!(g.edges, vec![((0, 1), 1), ((2, 3), 1), ((1, 2), 1), ((0, 3), 1)]);
    assert!(simple_graph_from_stubs(3, &vec![0, 0, 1, 2]).is_none());
    assert!(simple_graph_from_stubs(3, &vec![0, 1, 1, 0]).is_none());
}

#[test]
fn multigraph_of_given_stubs_merges_and_drops_loops() {
    let g = multigraph_from_stubs(3, &vec![0, 1, 1, 0, 2, 2, 2, 1]);
    assert_eq!(g.n, 3);
    assert_eq!(g.edges, vec![((0, 1), 2), ((1, 2), 1)]);
    assert_eq!(multigraph_from_stubs(2, &vec![1, 1]).edges, vec![]);
}

#[test]
fn the_sampler_is_reproducible_for_a_seed() {
    let a = random_regular_graph(40, 3, 5);
    let b = random_regular_graph(40, 3, 5);
    assert_eq!(a.edges, b.edges);
    let s1 = random_simple_regular_graph(20, 4, 7, 5000).expect("simple sample");
    let s2 = random_simple_regular_graph(20, 4, 7, 5000).expect("simple sample");
    assert_eq!(s1.edges, s2.edges);
}

#[test]
fn clique_pairs_link_every_two_members_once() {
    assert_eq!(clique_pairs(&vec![2, 5, 7]), vec![(2, 5), (2, 7), (5, 7)]);
    assert_eq!(clique_pairs(&vec![4, 1]), vec![(1, 4)]);
    assert_eq!(clique_pairs(&vec![3]), vec![]);
    assert_eq!(clique_pairs(&vec![0, 1, 2, 3]).len(), 6);
}
