//! Graph-side machinery for the continuum-limit diagnostics: connected
//! components, and random d-regular graphs drawn from the configuration
//! (pairing) model, either rejection-sampled until simple or kept as a
//! multigraph with self-loops dropped.

use vstd::prelude::*;
use rand::SeedableRng;
use rand::seq::SliceRandom;
use rand_pcg::Lcg128Xsl64;
use crate::hypergraph::{
    WeightedGraph, edge_pairs, lemma_neighbor_lists_shape, lists_view, pairs_in_range, push_at,
    simple_edges, vec_contains,
};
use crate::nonbacktracking::{adj_in_range, graph_adj};
use crate::regge::{edge_key, spec_edge_key};

verus! {

/// `p` is a walk along the neighbor lists `adj`.
pub open spec fn is_walk(adj: Seq<Seq<usize>>, p: Seq<usize>) -> bool {
    &&& p.len() >= 1
    &&& forall|i: int| 0 < i < p.len() ==> adj[p[i - 1] as int].contains(#[trigger] p[i])
}

/// `v` can be reached from `u` by a walk along `adj`.
pub open spec fn reaches(adj: Seq<Seq<usize>>, u: usize, v: usize) -> bool {
    exists|p: Seq<usize>| #[trigger] is_walk(adj, p) && p[0] == u && p.last() == v
}

/// `v` is the least vertex of its component: no smaller vertex reaches it.
pub open spec fn is_component_root(adj: Seq<Seq<usize>>, v: usize) -> bool {
    forall|s: usize| s < v ==> !#[trigger] reaches(adj, s, v)
}

/// The number of component roots among the vertices below `m`.
pub open spec fn roots_below(adj: Seq<Seq<usize>>, m: nat) -> nat
    decreases m,
{
    if m == 0 {
        0
    } else {
        roots_below(adj, (m - 1) as nat) + if is_component_root(adj, (m - 1) as usize) {
            1nat
        } else {
            0nat
        }
    }
}

/// Number of unmarked entries.
pub open spec fn unmarked(visited: Seq<bool>) -> nat
    decreases visited.len(),
{
    if visited.len() == 0 {
        0
    } else {
        unmarked(visited.drop_last()) + if visited.last() {
            0nat
        } else {
            1nat
        }
    }
}

proof fn lemma_unmarked_mark(visited: Seq<bool>, i: int)
    requires
        0 <= i < visited.len(),
        !visited[i],
    ensures
        unmarked(visited.update(i, true)) + 1 == unmarked(visited),
    decreases visited.len(),
{
    let v2 = visited.update(i, true);
    if i == visited.len() - 1 {
        assert(v2.drop_last() =~= visited.drop_last());
    } else {
        assert(v2.drop_last() =~= visited.drop_last().update(i, true));
        lemma_unmarked_mark(visited.drop_last(), i);
    }
}

proof fn lemma_reaches_self(adj: Seq<Seq<usize>>, u: usize)
    ensures
        reaches(adj, u, u),
{
    let p = seq![u];
    assert(is_walk(adj, p));
}

proof fn lemma_reaches_step(adj: Seq<Seq<usize>>, s: usize, x: usize, y: usize)
    requires
        reaches(adj, s, x),
        adj[x as int].contains(y),
    ensures
        reaches(adj, s, y),
{
    let p = choose|p: Seq<usize>| #[trigger] is_walk(adj, p) && p[0] == s && p.last() == x;
    let q = p.push(y);
    assert forall|i: int| 0 < i < q.len() implies adj[q[i - 1] as int].contains(#[trigger] q[i]) by {
        if i < p.len() {
            assert(q[i - 1] == p[i - 1] && q[i] == p[i]);
        }
    }
    assert(is_walk(adj, q));
}

/// A marking closed under stepping along `adj` contains everything reached
/// from a marked vertex.
proof fn lemma_closed_contains_reached(adj: Seq<Seq<usize>>, visited: Seq<bool>, u: usize, v: usize)
    requires
        u < visited.len(),
        visited[u as int],
        adj_in_range(adj),
        adj.len() == visited.len(),
        forall|x: int, j: int|
            0 <= x < visited.len() && visited[x] && 0 <= j < adj[x].len() ==> visited[#[trigger] adj[x][j] as int],
        reaches(adj, u, v),
    ensures
        v < visited.len() && visited[v as int],
{
    let p = choose|p: Seq<usize>| #[trigger] is_walk(adj, p) && p[0] == u && p.last() == v;
    lemma_walk_marked(adj, visited, p, p.len() - 1);
}

proof fn lemma_walk_marked(adj: Seq<Seq<usize>>, visited: Seq<bool>, p: Seq<usize>, i: int)
    requires
        is_walk(adj, p),
        0 <= i < p.len(),
        p[0] < visited.len(),
        visited[p[0] as int],
        adj_in_range(adj),
        adj.len() == visited.len(),
        forall|x: int, j: int|
            0 <= x < visited.len() && visited[x] && 0 <= j < adj[x].len() ==> visited[#[trigger] adj[x][j] as int],
    ensures
        p[i] < visited.len() && visited[p[i] as int],
    decreases i,
{
    if i > 0 {
        lemma_walk_marked(adj, visited, p, i - 1);
        let x = p[i - 1] as int;
        assert(adj[x].contains(p[i]));
        let j = adj[x].index_of(p[i]);
        assert(adj[x][j] < adj.len());
    }
}

/// Number of connected components, by depth-first search from each vertex
/// not yet reached: the vertices that start a new search are exactly the
/// least vertices of their components.
pub fn count_components<W>(g: &WeightedGraph<W>) -> (c: usize)
    requires
        g.well_formed(),
    ensures
        c == roots_below(graph_adj(g), g.n as nat),
{
    let adj = g.neighbors();
    let ghost a = lists_view(adj@);
    proof {
        lemma_neighbor_lists_shape(g.n as nat, edge_pairs(g.edges@));
        assert(adj_in_range(a));
    }
    let n = g.n;
    let mut visited: Vec<bool> = Vec::new();
    let mut k: usize = 0;
    while k < n
        invariant
            0 <= k <= n,
            visited.len() == k,
            forall|i: int| 0 <= i < k ==> !visited@[i],
        decreases n - k,
    {
        visited.push(false);
        k = k + 1;
    }
    let mut components: usize = 0;
    let mut start: usize = 0;
    while start < n
        invariant
            0 <= start <= n,
            n == g.n,
            adj.len() == n,
            a == lists_view(adj@),
            a == graph_adj(g),
            adj_in_range(a),
            visited.len() == n,
            components <= start,
            components == roots_below(a, start as nat),
            forall|x: usize|
                x < n ==> (visited@[x as int] <==> exists|s: usize| s < start && #[trigger] reaches(a, s, x)),
            forall|x: int, j: int|
                0 <= x < n && visited@[x] && 0 <= j < a[x].len() ==> visited@[#[trigger] a[x][j] as int],
        decreases n - start,
    {
        if visited[start] {
            proof {
                let s = choose|s: usize| s < start && #[trigger] reaches(a, s, start);
                assert(!is_component_root(a, start));
                assert forall|x: usize| x < n implies (visited@[x as int] <==> exists|s: usize|
                    s < start + 1 && #[trigger] reaches(a, s, x)) by {
                    if !visited@[x as int] && reaches(a, start, x) {
                        lemma_closed_contains_reached(a, visited@, start, x);
                    }
                    if visited@[x as int] {
                        let s = choose|s: usize| s < start && #[trigger] reaches(a, s, x);
                        assert(s < start + 1);
                    }
                }
            }
            start = start + 1;
            continue;
        }
        proof {
            assert(is_component_root(a, start));
        }
        components = components + 1;
        let ghost prev_visited = visited@;
        visited.set(start, true);
        let mut stack: Vec<usize> = Vec::new();
        stack.push(start);
        proof {
            lemma_reaches_self(a, start);
            lemma_unmarked_mark(prev_visited, start as int);
            assert(visited@ == prev_visited.update(start as int, true));
            assert forall|x: int, j: int|
                0 <= x < n && visited@[x] && !stack@.contains(x as usize) && 0 <= j < a[x].len()
                    implies visited@[#[trigger] a[x][j] as int] by {
                if x == start as int {
                    assert(stack@[0] == start);
                }
                assert(prev_visited[x]);
            }
        }
        while stack.len() > 0
            invariant
                start < n,
                prev_visited.len() == n,
                forall|x: usize|
                    x < n ==> (prev_visited[x as int] <==> exists|s: usize|
                        s < start && #[trigger] reaches(a, s, x)),
                adj.len() == n,
                a == lists_view(adj@),
                adj_in_range(a),
                visited.len() == n,
                visited@[start as int],
                forall|x: int| 0 <= x < n && prev_visited[x] ==> visited@[x],
                forall|i: int| 0 <= i < stack.len() ==> #[trigger] stack@[i] < n && visited@[stack@[i] as int],
                forall|x: usize|
                    x < n && visited@[x as int] ==> (exists|s: usize| s < start && #[trigger] reaches(a, s, x))
                        || reaches(a, start, x),
                forall|x: int, j: int|
                    0 <= x < n && visited@[x] && !stack@.contains(x as usize) && 0 <= j < a[x].len()
                        ==> visited@[#[trigger] a[x][j] as int],
            decreases 2 * unmarked(visited@) + stack.len(),
        {
            let ghost m0 = 2 * unmarked(visited@) + stack.len();
            let ghost stack_before_pop = stack@;
            let v = stack.pop().unwrap();
            let ghost stack_after_pop = stack@;
            proof {
                assert(stack_before_pop =~= stack_after_pop.push(v));
                assert forall|x: usize| #[trigger] stack_before_pop.contains(x) && x != v implies stack_after_pop.contains(x) by {
                    let j = stack_before_pop.index_of(x);
                    assert(j < stack_after_pop.len());
                    assert(stack_after_pop[j] == x);
                }
            }
            let nb = &adj[v];
            assert(nb@ == a[v as int]);
            let mut i: usize = 0;
            while i < nb.len()
                invariant
                    start < n,
                    v < n,
                    adj.len() == n,
                    a == lists_view(adj@),
                    adj_in_range(a),
                    nb@ == a[v as int],
                    0 <= i <= nb.len(),
                    visited.len() == n,
                    visited@[start as int],
                    visited@[v as int],
                    (exists|s: usize| s < start && #[trigger] reaches(a, s, v)) || reaches(a, start, v),
                    forall|x: int| 0 <= x < n && prev_visited[x] ==> visited@[x],
                    forall|x: int| 0 <= x < i ==> visited@[#[trigger] nb@[x] as int],
                    forall|j: int| 0 <= j < stack.len() ==> #[trigger] stack@[j] < n && visited@[stack@[j] as int],
                    forall|j: int| 0 <= j < stack_after_pop.len() ==> stack@.contains(#[trigger] stack_after_pop[j]),
                    stack.len() >= stack_after_pop.len(),
                    forall|x: usize|
                        x < n && visited@[x as int] ==> (exists|s: usize| s < start && #[trigger] reaches(a, s, x))
                            || reaches(a, start, x),
                    forall|x: int, j: int|
                        0 <= x < n && visited@[x] && x != v && !stack@.contains(x as usize) && 0 <= j < a[x].len()
                            ==> visited@[#[trigger] a[x][j] as int],
                    2 * unmarked(visited@) + stack.len() < m0,
                decreases nb.len() - i,
            {
                let w = nb[i];
                assert(a[v as int][i as int] < n);
                if !visited[w] {
                    proof {
                        lemma_unmarked_mark(visited@, w as int);
                        if reaches(a, start, v) {
                            lemma_reaches_step(a, start, v, w);
                        } else {
                            let s = choose|s: usize| s < start && #[trigger] reaches(a, s, v);
                            lemma_reaches_step(a, s, v, w);
                        }
                    }
                    let ghost st = stack@;
                    visited.set(w, true);
                    stack.push(w);
                    proof {
                        assert forall|j: int| 0 <= j < stack_after_pop.len() implies stack@.contains(#[trigger] stack_after_pop[j]) by {
                            assert(st.contains(stack_after_pop[j]));
                            let k = st.index_of(stack_after_pop[j]);
                            assert(stack@[k] == stack_after_pop[j]);
                        }
                        assert forall|x: int, j: int|
                            0 <= x < n && visited@[x] && x != v && !stack@.contains(x as usize) && 0 <= j < a[x].len()
                                implies visited@[#[trigger] a[x][j] as int] by {
                            if st.contains(x as usize) {
                                let k = st.index_of(x as usize);
                                assert(stack@[k] == x as usize);
                            }
                            assert(stack@[stack.len() - 1] == w);
                        }
                    }
                }
                i = i + 1;
            }
            proof {
                assert forall|x: int, j: int|
                    0 <= x < n && visited@[x] && !stack@.contains(x as usize) && 0 <= j < a[x].len()
                        implies visited@[#[trigger] a[x][j] as int] by {
                    if x == v as int {
                        assert(a[x][j] == nb@[j]);
                    }
                }
            }
        }
        proof {
            assert forall|x: usize| x < n implies (visited@[x as int] <==> exists|s: usize|
                s < start + 1 && #[trigger] reaches(a, s, x)) by {
                if visited@[x as int] {
                    if reaches(a, start, x) {
                        assert(start < start + 1);
                    }
                } else {
                    if exists|s: usize| s < start + 1 && #[trigger] reaches(a, s, x) {
                        let s = choose|s: usize| s < start + 1 && #[trigger] reaches(a, s, x);
                        if s == start {
                            assert forall|y: int, j: int|
                                0 <= y < visited.len() && visited@[y] && 0 <= j < a[y].len() implies visited@[#[trigger] a[y][j] as int] by {
                                assert(!stack@.contains(y as usize));
                            }
                            lemma_closed_contains_reached(a, visited@, start, x);
                        } else {
                            assert(prev_visited[x as int]);
                        }
                    }
                }
            }
        }
        start = start + 1;
    }
    components
}

/// The order in which `rand::seq::SliceRandom::shuffle` leaves `stubs`
/// when driven by `rand_pcg::Pcg64` seeded with
/// `rand_core::SeedableRng::seed_from_u64(seed)`.
pub uninterp spec fn seeded_shuffle(stubs: Seq<usize>, seed: u64) -> Seq<usize>;

/// Seeds `rand_pcg::Pcg64` (`Lcg128Xsl64`) with `SeedableRng::seed_from_u64`
/// and shuffles `v` with `SliceRandom::shuffle`.  Seeded generators are
/// reproducible and the shuffle is a sequence of generator-driven swaps, so
/// the outcome depends on `v` and `seed` alone: it is named
/// `seeded_shuffle(v, seed)`.  Being made of swaps, it keeps every entry
/// with its multiplicity.  Which order comes out is not stated.
#[verifier::external_body]
fn shuffle_seeded(v: &mut Vec<usize>, seed: u64)
    ensures
        final(v)@ == seeded_shuffle(old(v)@, seed),
        final(v)@.to_multiset() == old(v)@.to_multiset(),
{
    let mut rng = Lcg128Xsl64::seed_from_u64(seed);
    v.shuffle(&mut rng);
}

/// Number of occurrences of `x` in `s`.
pub open spec fn count_of(s: Seq<usize>, x: usize) -> nat
    decreases s.len(),
{
    if s.len() == 0 {
        0
    } else {
        count_of(s.drop_last(), x) + if s.last() == x {
            1nat
        } else {
            0nat
        }
    }
}

proof fn lemma_count_of_push(s: Seq<usize>, y: usize, x: usize)
    ensures
        count_of(s.push(y), x) == count_of(s, x) + if y == x {
            1nat
        } else {
            0nat
        },
{
    assert(s.push(y).drop_last() =~= s);
}

proof fn lemma_count_of_multiset(s: Seq<usize>, x: usize)
    ensures
        count_of(s, x) == s.to_multiset().count(x),
    decreases s.len(),
{
    broadcast use vstd::seq_lib::group_to_multiset_ensures, vstd::multiset::group_multiset_axioms;

    if s.len() > 0 {
        lemma_count_of_multiset(s.drop_last(), x);
        assert(s.drop_last().push(s.last()) =~= s);
    } else {
        assert(s.to_multiset() =~= vstd::multiset::Multiset::<usize>::empty());
    }
}

/// The number of edge-list entries with endpoint `v`, a self-loop at `v`
/// counting twice: the degree of `v`.
pub open spec fn endpoint_count(es: Seq<(usize, usize)>, v: usize) -> nat
    decreases es.len(),
{
    if es.len() == 0 {
        0
    } else {
        endpoint_count(es.drop_last(), v) + (if es.last().0 == v {
            1nat
        } else {
            0nat
        }) + (if es.last().1 == v {
            1nat
        } else {
            0nat
        })
    }
}

/// The stub list of the configuration model: `d` copies of each vertex
/// `0..n`, vertex by vertex.
pub open spec fn stub_seq(n: nat, d: nat) -> Seq<usize>
    decreases n,
{
    if n == 0 {
        Seq::empty()
    } else {
        stub_seq((n - 1) as nat, d) + Seq::new(d, |i: int| (n - 1) as usize)
    }
}

/// `s` is a stub list of the configuration model on `n` vertices of
/// degree `d`, in some order: each vertex below `n` occurs `d` times and
/// nothing else occurs.
pub open spec fn is_stub_list(s: Seq<usize>, n: nat, d: nat) -> bool {
    &&& s.len() == n * d
    &&& forall|x: usize| #[trigger] count_of(s, x) == if x < n {
        d
    } else {
        0
    }
}

/// The `i`-th pair of consecutive stubs, as a normalized edge.
pub open spec fn stub_pair(stubs: Seq<usize>, i: int) -> (usize, usize) {
    spec_edge_key(stubs[2 * i], stubs[2 * i + 1])
}

/// The edges obtained by pairing consecutive stubs.
pub open spec fn stub_pairs(stubs: Seq<usize>) -> Seq<(usize, usize)> {
    Seq::new(stubs.len() / 2, |i: int| stub_pair(stubs, i))
}

/// Pairing consecutive stubs gives no self-loop and no repeated edge.
pub open spec fn pairing_is_simple(stubs: Seq<usize>) -> bool {
    &&& forall|i: int| 0 <= i < stubs.len() / 2 ==> stubs[2 * i] != #[trigger] stubs[2 * i + 1]
    &&& forall|i: int, j: int|
        0 <= i < j < stubs.len() / 2 ==> #[trigger] stub_pair(stubs, i) != #[trigger] stub_pair(
            stubs,
            j,
        )
}

/// A simple `d`-regular graph on `n` vertices: no self-loop, no repeated
/// edge, every vertex of degree exactly `d`, hence `n*d/2` edges.
pub open spec fn is_simple_regular(es: Seq<(usize, usize)>, n: nat, d: nat) -> bool {
    &&& es.len() == n * d / 2
    &&& pairs_in_range(es, n)
    &&& simple_edges(es)
    &&& forall|v: usize| v < n ==> #[trigger] endpoint_count(es, v) == d
}

/// The other endpoints of the edges at `v`, in edge-list order.
spec fn neighbor_seq(es: Seq<(usize, usize)>, v: usize) -> Seq<int>
    decreases es.len(),
{
    if es.len() == 0 {
        Seq::empty()
    } else {
        let e = es.last();
        neighbor_seq(es.drop_last(), v) + (if e.0 == v {
            seq![e.1 as int]
        } else {
            Seq::empty()
        }) + (if e.1 == v {
            seq![e.0 as int]
        } else {
            Seq::empty()
        })
    }
}

proof fn lemma_neighbor_seq(es: Seq<(usize, usize)>, v: usize)
    requires
        simple_edges(es),
    ensures
        neighbor_seq(es, v).len() == endpoint_count(es, v),
        neighbor_seq(es, v).no_duplicates(),
        forall|k: int|
            0 <= k < neighbor_seq(es, v).len() ==> exists|i: int|
                0 <= i < es.len() && #[trigger] neighbor_seq(es, v)[k] != v && (es[i].0 == v
                    && es[i].1 as int == neighbor_seq(es, v)[k] || es[i].1 == v && es[i].0 as int
                    == neighbor_seq(es, v)[k]),
    decreases es.len(),
{
    if es.len() > 0 {
        let prev = es.drop_last();
        let e = es.last();
        assert(simple_edges(prev)) by {
            assert forall|i: int| 0 <= i < prev.len() implies (#[trigger] prev[i]).0 != prev[i].1 by {
                assert(prev[i] == es[i]);
            }
            assert forall|i: int, j: int| 0 <= i < j < prev.len() implies !((#[trigger] prev[i]).0
                == (#[trigger] prev[j]).0 && prev[i].1 == prev[j].1 || prev[i].0 == prev[j].1
                && prev[i].1 == prev[j].0) by {
                assert(prev[i] == es[i] && prev[j] == es[j]);
            }
        }
        lemma_neighbor_seq(prev, v);
        let ps = neighbor_seq(prev, v);
        let ns = neighbor_seq(es, v);
        let last = es.len() - 1;
        assert(es[last].0 != es[last].1);
        if e.0 == v || e.1 == v {
            let w: int = if e.0 == v {
                e.1 as int
            } else {
                e.0 as int
            };
            assert(ns =~= ps.push(w));
            assert(!ps.contains(w)) by {
                if ps.contains(w) {
                    let k = ps.index_of(w);
                    let i = choose|i: int|
                        0 <= i < prev.len() && #[trigger] ps[k] != v && (prev[i].0 == v
                            && prev[i].1 as int == ps[k] || prev[i].1 == v && prev[i].0 as int
                            == ps[k]);
                    assert(prev[i] == es[i]);
                    assert(!((es[i]).0 == (es[last]).0 && es[i].1 == es[last].1 || es[i].0
                        == es[last].1 && es[i].1 == es[last].0));
                }
            }
            assert forall|k: int| 0 <= k < ns.len() implies exists|i: int|
                0 <= i < es.len() && #[trigger] ns[k] != v && (es[i].0 == v && es[i].1 as int
                    == ns[k] || es[i].1 == v && es[i].0 as int == ns[k]) by {
                if k < ps.len() {
                    assert(ns[k] == ps[k]);
                    let i = choose|i: int|
                        0 <= i < prev.len() && #[trigger] ps[k] != v && (prev[i].0 == v
                            && prev[i].1 as int == ps[k] || prev[i].1 == v && prev[i].0 as int
                            == ps[k]);
                    assert(prev[i] == es[i]);
                } else {
                    assert(es[last] == e);
                }
            }
        } else {
            assert(ns =~= ps);
            assert forall|k: int| 0 <= k < ns.len() implies exists|i: int|
                0 <= i < es.len() && #[trigger] ns[k] != v && (es[i].0 == v && es[i].1 as int
                    == ns[k] || es[i].1 == v && es[i].0 as int == ns[k]) by {
                let i = choose|i: int|
                    0 <= i < prev.len() && #[trigger] ps[k] != v && (prev[i].0 == v
                        && prev[i].1 as int == ps[k] || prev[i].1 == v && prev[i].0 as int
                        == ps[k]);
                assert(prev[i] == es[i]);
            }
        }
    }
}

/// In a simple graph on `n >= 1` vertices no vertex has degree `n` or more,
/// so a simple `d`-regular graph on them has `d < n`.
proof fn lemma_simple_regular_degree_below_order(es: Seq<(usize, usize)>, n: nat, d: nat)
    requires
        n >= 1,
        is_simple_regular(es, n, d),
    ensures
        d < n,
{
    broadcast use vstd::set::group_set_axioms;

    lemma_neighbor_seq(es, 0);
    let ns = neighbor_seq(es, 0);
    ns.unique_seq_to_set();
    vstd::set_lib::lemma_int_range(1, n as int);
    assert(ns.to_set().subset_of(vstd::set_lib::set_int_range(1, n as int))) by {
        assert forall|x: int| ns.to_set().contains(x) implies vstd::set_lib::set_int_range(
            1,
            n as int,
        ).contains(x) by {
            let k = ns.index_of(x);
            let i = choose|i: int|
                0 <= i < es.len() && #[trigger] ns[k] != 0 && (es[i].0 == 0 && es[i].1 as int
                    == ns[k] || es[i].1 == 0 && es[i].0 as int == ns[k]);
            assert(es[i].0 < n && es[i].1 < n);
        }
    }
    vstd::set_lib::lemma_len_subset(ns.to_set(), vstd::set_lib::set_int_range(1, n as int));
    assert(endpoint_count(es, 0) == d);
}

/// Pairs consecutive stubs into edges; `None` as soon as a pair is a
/// self-loop or repeats an earlier pair.
fn pair_stubs(n: usize, stubs: &Vec<usize>) -> (r: Option<Vec<(usize, usize)>>)
    requires
        stubs.len() % 2 == 0,
        forall|i: int| 0 <= i < stubs.len() ==> #[trigger] stubs@[i] < n,
    ensures
        r is Some <==> pairing_is_simple(stubs@),
        r matches Some(es) ==> es@ == stub_pairs(stubs@),
{
    let mut seen: Vec<Vec<usize>> = Vec::new();
    let mut k: usize = 0;
    while k < n
        invariant
            0 <= k <= n,
            seen.len() == k,
            forall|i: int| 0 <= i < k ==> (#[trigger] seen@[i])@ == Seq::<usize>::empty(),
        decreases n - k,
    {
        seen.push(Vec::new());
        k = k + 1;
    }
    let half = stubs.len() / 2;
    let mut edges: Vec<(usize, usize)> = Vec::new();
    let mut i: usize = 0;
    while i < half
        invariant
            0 <= i <= half,
            half == stubs.len() / 2,
            stubs.len() % 2 == 0,
            forall|t: int| 0 <= t < stubs.len() ==> #[trigger] stubs@[t] < n,
            seen.len() == n,
            edges@ == stub_pairs(stubs@).take(i as int),
            forall|t: int| 0 <= t < i ==> stubs@[2 * t] != #[trigger] stubs@[2 * t + 1],
            forall|t: int, u: int|
                0 <= t < u < i ==> #[trigger] stub_pair(stubs@, t) != #[trigger] stub_pair(
                    stubs@,
                    u,
                ),
            forall|a: int, b: usize|
                0 <= a < n ==> (#[trigger] seen@[a]@.contains(b) <==> exists|t: int|
                    0 <= t < i && #[trigger] stub_pair(stubs@, t) == (a as usize, b)),
        decreases half - i,
    {
        let x = stubs[2 * i];
        let y = stubs[2 * i + 1];
        if x == y {
            proof {
                assert(!pairing_is_simple(stubs@));
            }
            return None;
        }
        let (a, b) = edge_key(x, y);
        assert(stub_pair(stubs@, i as int) == (a, b));
        if vec_contains(&seen[a], b) {
            proof {
                let t = choose|t: int| 0 <= t < i && #[trigger] stub_pair(stubs@, t) == (a, b);
                assert(stub_pair(stubs@, t) == stub_pair(stubs@, i as int));
                assert(!pairing_is_simple(stubs@));
            }
            return None;
        }
        let ghost old_seen = seen@;
        push_at(&mut seen, a, b);
        edges.push((a, b));
        proof {
            assert(edges@ =~= stub_pairs(stubs@).take(i + 1));
            assert forall|a2: int, b2: usize| 0 <= a2 < n implies (#[trigger] seen@[a2]@.contains(
                b2,
            ) <==> exists|t: int| 0 <= t < i + 1 && #[trigger] stub_pair(stubs@, t) == (
                a2 as usize,
                b2,
            )) by {
                if a2 == a as int {
                    if seen@[a2]@.contains(b2) && b2 != b {
                        let p = seen@[a2]@.index_of(b2);
                        assert(old_seen[a2]@[p] == b2);
                        assert(old_seen[a2]@.contains(b2));
                    }
                    if exists|t: int| 0 <= t < i && #[trigger] stub_pair(stubs@, t) == (
                        a2 as usize,
                        b2,
                    ) {
                        assert(old_seen[a2]@.contains(b2));
                        let p = old_seen[a2]@.index_of(b2);
                        assert(seen@[a2]@[p] == b2);
                    }
                    if b2 == b {
                        assert(seen@[a2]@[old_seen[a2]@.len() as int] == b);
                    }
                } else {
                    assert(seen@[a2] == old_seen[a2]);
                }
            }
            assert forall|t: int, u: int| 0 <= t < u < i + 1 implies #[trigger] stub_pair(
                stubs@,
                t,
            ) != #[trigger] stub_pair(stubs@, u) by {
                if u == i {
                    if stub_pair(stubs@, t) == (a, b) {
                        assert(old_seen[a as int]@.contains(b));
                    }
                }
            }
        }
        i = i + 1;
    }
    proof {
        assert(stub_pairs(stubs@).take(half as int) =~= stub_pairs(stubs@));
    }
    Some(edges)
}


proof fn lemma_count_of_contains(s: Seq<usize>, x: usize)
    ensures
        s.contains(x) <==> count_of(s, x) > 0,
{
    broadcast use vstd::seq_lib::group_to_multiset_ensures;

    lemma_count_of_multiset(s, x);
}

proof fn lemma_count_of_two(s: Seq<usize>, i: int, j: int)
    requires
        0 <= i < j < s.len(),
        s[i] == s[j],
    ensures
        count_of(s, s[i]) >= 2,
    decreases s.len(),
{
    let x = s[i];
    let prev = s.drop_last();
    if j == s.len() - 1 {
        assert(prev[i] == x);
        assert(prev.contains(x));
        lemma_count_of_contains(prev, x);
    } else {
        assert(prev[i] == x && prev[j] == x);
        lemma_count_of_two(prev, i, j);
    }
}

/// Stubs in which no vertex occurs twice always pair into a simple graph.
proof fn lemma_distinct_stubs_pair_simply(s: Seq<usize>)
    requires
        forall|x: usize| #[trigger] count_of(s, x) <= 1,
    ensures
        pairing_is_simple(s),
{
    assert forall|a: int, b: int| 0 <= a < b < s.len() implies s[a] != s[b] by {
        if s[a] == s[b] {
            lemma_count_of_two(s, a, b);
        }
    }
    assert forall|i: int, j: int| 0 <= i < j < s.len() / 2 implies #[trigger] stub_pair(s, i)
        != #[trigger] stub_pair(s, j) by {
        assert(s[2 * i] != s[2 * j] && s[2 * i] != s[2 * j + 1]);
    }
}

proof fn lemma_endpoint_count_pairs(s: Seq<usize>, v: usize, i: int)
    requires
        0 <= i <= s.len() / 2,
    ensures
        endpoint_count(stub_pairs(s).take(i), v) == count_of(s.take(2 * i), v),
    decreases i,
{
    if i > 0 {
        lemma_endpoint_count_pairs(s, v, i - 1);
        let ps = stub_pairs(s).take(i);
        assert(ps.drop_last() =~= stub_pairs(s).take(i - 1));
        assert(ps.last() == stub_pair(s, i - 1));
        let t = s.take(2 * i);
        assert(t.drop_last().drop_last() =~= s.take(2 * (i - 1)));
        assert(t.drop_last().last() == s[2 * (i - 1)]);
        assert(t.last() == s[2 * (i - 1) + 1]);
        assert(count_of(t, v) == count_of(t.drop_last(), v) + if t.last() == v {
            1nat
        } else {
            0nat
        });
        assert(count_of(t.drop_last(), v) == count_of(t.drop_last().drop_last(), v) + if t.drop_last().last() == v {
            1nat
        } else {
            0nat
        });
    } else {
        assert(s.take(0) =~= Seq::<usize>::empty());
    }
}

proof fn lemma_simple_pairing_is_simple_graph(s: Seq<usize>, n: nat, d: nat)
    requires
        pairing_is_simple(s),
        s.len() % 2 == 0,
        s.len() == n * d,
        forall|x: usize| #[trigger] count_of(s, x) == if x < n {
            d
        } else {
            0
        },
    ensures
        is_simple_regular(stub_pairs(s), n, d),
{
    let es = stub_pairs(s);
    assert forall|i: int| 0 <= i < s.len() implies #[trigger] s[i] < n by {
        assert(s.contains(s[i]));
        lemma_count_of_contains(s, s[i]);
    }
    assert forall|i: int| 0 <= i < es.len() implies (#[trigger] es[i]).0 < n && es[i].1 < n by {
        assert(s[2 * i] < n && s[2 * i + 1] < n);
    }
    assert forall|i: int| 0 <= i < es.len() implies (#[trigger] es[i]).0 != es[i].1 by {
        assert(s[2 * i] != s[2 * i + 1]);
    }
    assert forall|i: int, j: int| 0 <= i < j < es.len() implies !((#[trigger] es[i]).0 == (
    #[trigger] es[j]).0 && es[i].1 == es[j].1 || es[i].0 == es[j].1 && es[i].1 == es[j].0) by {
        assert(stub_pair(s, i) != stub_pair(s, j));
        assert(s[2 * i] != s[2 * i + 1]);
        assert(s[2 * j] != s[2 * j + 1]);
    }
    assert forall|v: usize| v < n implies #[trigger] endpoint_count(es, v) == d by {
        lemma_endpoint_count_pairs(s, v, (s.len() / 2) as int);
        assert(es.take(es.len() as int) =~= es);
        assert(s.take(2 * ((s.len() / 2) as int)) =~= s);
    }
}

/// The stub list of the configuration model: each vertex of `0..n`, `d`
/// times, vertex by vertex.
pub fn stub_list(n: usize, d: usize) -> (stubs: Vec<usize>)
    requires
        n * d <= usize::MAX,
    ensures
        stubs@ == stub_seq(n as nat, d as nat),
        is_stub_list(stubs@, n as nat, d as nat),
{
    let mut stubs: Vec<usize> = Vec::new();
    let mut v: usize = 0;
    while v < n
        invariant
            0 <= v <= n,
            n * d <= usize::MAX,
            stubs.len() == v * d,
            stubs@ == stub_seq(v as nat, d as nat),
            forall|x: usize| #[trigger] count_of(stubs@, x) == if x < v {
                d as nat
            } else {
                0
            },
        decreases n - v,
    {
        let mut j: usize = 0;
        while j < d
            invariant
                v < n,
                0 <= j <= d,
                n * d <= usize::MAX,
                stubs.len() == v * d + j,
                stubs@ == stub_seq(v as nat, d as nat) + Seq::new(j as nat, |i: int| v),
                forall|x: usize| #[trigger] count_of(stubs@, x) == (if x < v {
                    d as nat
                } else {
                    0
                }) + if x == v {
                    j as nat
                } else {
                    0
                },
            decreases d - j,
        {
            assert(v * d + j < n * d) by (nonlinear_arith)
                requires
                    v < n,
                    j < d,
            ;
            proof {
                assert forall|x: usize| #[trigger] count_of(stubs@.push(v), x) == count_of(stubs@, x)
                    + if v == x {
                    1nat
                } else {
                    0nat
                } by {
                    lemma_count_of_push(stubs@, v, x);
                }
            }
            let ghost before = stubs@;
            stubs.push(v);
            assert(Seq::new((j + 1) as nat, |i: int| v) =~= Seq::new(j as nat, |i: int| v).push(v));
            assert(stubs@ =~= stub_seq(v as nat, d as nat) + Seq::new((j + 1) as nat, |i: int| v));
            j = j + 1;
        }
        assert(stub_seq((v + 1) as nat, d as nat) =~= stub_seq(v as nat, d as nat) + Seq::new(
            d as nat,
            |i: int| v,
        ));
        assert((v + 1) * d == v * d + d) by (nonlinear_arith);
        v = v + 1;
    }
    stubs
}

/// A reordering of a stub list is a stub list, with every entry a vertex.
proof fn lemma_reordered_stub_list(before: Seq<usize>, after: Seq<usize>, n: nat, d: nat)
    requires
        is_stub_list(before, n, d),
        after.to_multiset() == before.to_multiset(),
    ensures
        is_stub_list(after, n, d),
        forall|i: int| 0 <= i < after.len() ==> #[trigger] after[i] < n,
{
    broadcast use vstd::seq_lib::group_to_multiset_ensures;

    after.to_multiset_ensures();
    before.to_multiset_ensures();
    assert forall|x: usize| #[trigger] count_of(after, x) == count_of(before, x) by {
        lemma_count_of_multiset(after, x);
        lemma_count_of_multiset(before, x);
    }
    assert forall|i: int| 0 <= i < after.len() implies #[trigger] after[i] < n by {
        assert(after.contains(after[i]));
        lemma_count_of_contains(after, after[i]);
    }
}

/// The stub list of `n` vertices of degree `d` after the shuffle seeded
/// with `seed`.
pub open spec fn shuffled_stubs(n: nat, d: nat, seed: u64) -> Seq<usize> {
    seeded_shuffle(stub_seq(n, d), seed)
}

/// Pairs consecutive stubs into the edges of a graph on `n` vertices, each
/// of weight 1; `None` when the pairing has a self-loop or repeats an edge.
pub fn simple_graph_from_stubs(n: usize, stubs: &Vec<usize>) -> (r: Option<WeightedGraph<u64>>)
    requires
        stubs.len() % 2 == 0,
        forall|i: int| 0 <= i < stubs.len() ==> #[trigger] stubs@[i] < n,
    ensures
        r is Some <==> pairing_is_simple(stubs@),
        r matches Some(g) ==> {
            &&& g.n == n
            &&& edge_pairs(g.edges@) == stub_pairs(stubs@)
            &&& forall|i: int| 0 <= i < g.edges.len() ==> (#[trigger] g.edges@[i]).1 == 1
        },
{
    match pair_stubs(n, &stubs) {
        None => None,
        Some(es) => {
            let mut edges: Vec<((usize, usize), u64)> = Vec::new();
            let mut i: usize = 0;
            while i < es.len()
                invariant
                    0 <= i <= es.len(),
                    edges.len() == i,
                    edge_pairs(edges@) == es@.take(i as int),
                    forall|t: int| 0 <= t < edges.len() ==> (#[trigger] edges@[t]).1 == 1,
                decreases es.len() - i,
            {
                let ghost old_edges = edges@;
                edges.push((es[i], 1));
                proof {
                    assert forall|t: int| 0 <= t < i + 1 implies #[trigger] edge_pairs(edges@)[t] == es@.take(i + 1)[t] by {
                        if t < i {
                            assert(edges@[t] == old_edges[t]);
                            assert(edge_pairs(old_edges)[t] == es@.take(i as int)[t]);
                        }
                    }
                    assert(edge_pairs(edges@) =~= es@.take(i + 1));
                }
                i = i + 1;
            }
            proof {
                assert(es@.take(es.len() as int) =~= es@);
                assert(edge_pairs(edges@) == stub_pairs(stubs@));
            }
            Some(WeightedGraph { n, edges })
        },
    }
}

/// One attempt of the pairing model: builds the stub list (each vertex `d`
/// times), shuffles it with the generator seeded from `seed`, and pairs
/// consecutive stubs; `None` if the pairing has a self-loop or a repeated
/// edge.
fn try_pairing(n: usize, d: usize, seed: u64) -> (r: Option<WeightedGraph<u64>>)
    requires
        n * d <= usize::MAX,
        (n * d) % 2 == 0,
    ensures
        r is Some <==> pairing_is_simple(shuffled_stubs(n as nat, d as nat, seed)),
        r matches Some(g) ==> {
            &&& g.n == n
            &&& edge_pairs(g.edges@) == stub_pairs(shuffled_stubs(n as nat, d as nat, seed))
            &&& forall|i: int| 0 <= i < g.edges.len() ==> (#[trigger] g.edges@[i]).1 == 1
            &&& is_simple_regular(edge_pairs(g.edges@), n as nat, d as nat)
            &&& is_stub_list(shuffled_stubs(n as nat, d as nat, seed), n as nat, d as nat)
        },
        d <= 1 ==> r is Some,
{
    let mut stubs = stub_list(n, d);
    let ghost built = stubs@;
    shuffle_seeded(&mut stubs, seed);
    proof {
        lemma_reordered_stub_list(built, stubs@, n as nat, d as nat);
        if d <= 1 {
            lemma_distinct_stubs_pair_simply(stubs@);
        }
    }
    let r = simple_graph_from_stubs(n, &stubs);
    proof {
        if r is Some {
            lemma_simple_pairing_is_simple_graph(stubs@, n as nat, d as nat);
        }
    }
    r
}

/// Rejection-sampled simple `d`-regular graph on `n` vertices (edge weight
/// 1): retries the pairing model with seeds `seed`, `seed + 1`, ...
/// (wrapping) until a pairing has no self-loop and no repeated edge, at most
/// `max_attempts` times.  `None` when every attempt was rejected.  With
/// `d <= 1` the first attempt always succeeds (no vertex has two stubs to
/// clash), and with `n >= 1` and `d >= n` every attempt fails (a simple
/// graph has no vertex of degree `n` or more).
pub fn random_simple_regular_graph(n: usize, d: usize, seed: u64, max_attempts: u64) -> (r: Option<
    WeightedGraph<u64>,
>)
    requires
        n * d <= usize::MAX,
        (n * d) % 2 == 0,
    ensures
        r is Some <==> exists|a: u64|
            a < max_attempts && #[trigger] pairing_is_simple(
                shuffled_stubs(n as nat, d as nat, seed.wrapping_add(a)),
            ),
        r matches Some(g) ==> exists|a: u64|
            #![trigger shuffled_stubs(n as nat, d as nat, seed.wrapping_add(a))]
            {
                &&& a < max_attempts
                &&& forall|b: u64|
                    b < a ==> !#[trigger] pairing_is_simple(
                        shuffled_stubs(n as nat, d as nat, seed.wrapping_add(b)),
                    )
                &&& pairing_is_simple(shuffled_stubs(n as nat, d as nat, seed.wrapping_add(a)))
                &&& edge_pairs(g.edges@) == stub_pairs(
                    shuffled_stubs(n as nat, d as nat, seed.wrapping_add(a)),
                )
            },
        r matches Some(g) ==> {
            &&& g.n == n
            &&& is_simple_regular(edge_pairs(g.edges@), n as nat, d as nat)
            &&& forall|i: int| 0 <= i < g.edges.len() ==> (#[trigger] g.edges@[i]).1 == 1
        },
        max_attempts > 0 && d <= 1 ==> r is Some,
        n >= 1 && d >= n ==> r is None,
{
    let mut attempt: u64 = 0;
    while attempt < max_attempts
        invariant
            n * d <= usize::MAX,
            (n * d) % 2 == 0,
            0 <= attempt <= max_attempts,
            attempt > 0 ==> d > 1,
            forall|b: u64|
                b < attempt ==> !#[trigger] pairing_is_simple(
                    shuffled_stubs(n as nat, d as nat, seed.wrapping_add(b)),
                ),
        decreases max_attempts - attempt,
    {
        let r = try_pairing(n, d, seed.wrapping_add(attempt));
        let ghost sh = shuffled_stubs(n as nat, d as nat, seed.wrapping_add(attempt));
        if let Some(g) = r {
            proof {
                if n >= 1 {
                    lemma_simple_regular_degree_below_order(edge_pairs(g.edges@), n as nat, d as nat);
                }
                assert(attempt < max_attempts && pairing_is_simple(sh));
                assert(edge_pairs(g.edges@) == stub_pairs(sh));
            }
            return Some(g);
        }
        proof {
            assert(!pairing_is_simple(sh));
            assert forall|b: u64| b < attempt + 1 implies !#[trigger] pairing_is_simple(
                shuffled_stubs(n as nat, d as nat, seed.wrapping_add(b)),
            ) by {}
        }
        attempt = attempt + 1;
    }
    None
}

/// How many of the first `m` consecutive stub pairs of `s` form the edge `p`.
pub open spec fn pair_count(s: Seq<usize>, p: (usize, usize), m: int) -> nat
    decreases m,
{
    if m <= 0 {
        0
    } else {
        pair_count(s, p, m - 1) + if stub_pair(s, m - 1) == p {
            1nat
        } else {
            0nat
        }
    }
}

/// `ws` is the multigraph of the stub pairing `s` with self-loops dropped:
/// each edge (a, b), a < b, listed once with its multiplicity as weight,
/// and every edge that the pairing forms listed.
pub open spec fn is_pairing_multigraph(s: Seq<usize>, ws: Seq<((usize, usize), u64)>) -> bool {
    let m = (s.len() / 2) as int;
    &&& forall|i: int, j: int| 0 <= i < j < ws.len() ==> (#[trigger] ws[i]).0 != (#[trigger] ws[j]).0
    &&& forall|i: int|
        0 <= i < ws.len() ==> (#[trigger] ws[i]).0.0 < ws[i].0.1 && ws[i].1 >= 1 && ws[i].1 as nat == pair_count(
            s,
            ws[i].0,
            m,
        )
    &&& forall|p: (usize, usize)|
        p.0 != p.1 && #[trigger] pair_count(s, p, m) > 0 ==> exists|i: int|
            0 <= i < ws.len() && (#[trigger] ws[i]).0 == p
}

proof fn lemma_pair_count_bound(s: Seq<usize>, p: (usize, usize), m: int)
    requires
        m >= 0,
    ensures
        pair_count(s, p, m) <= m,
    decreases m,
{
    if m > 0 {
        lemma_pair_count_bound(s, p, m - 1);
    }
}

/// The multigraph of the stub pairing: consecutive stubs are paired,
/// self-loops dropped and repeated edges merged, each edge (a, b), a < b,
/// weighted by its multiplicity and listed at the first pair forming it.
pub fn multigraph_from_stubs(n: usize, stubs: &Vec<usize>) -> (g: WeightedGraph<u64>)
    requires
        forall|i: int| 0 <= i < stubs.len() ==> #[trigger] stubs@[i] < n,
    ensures
        g.n == n,
        g.well_formed(),
        is_pairing_multigraph(stubs@, g.edges@),
{
    let ghost s = stubs@;
    let mut by_first: Vec<Vec<usize>> = Vec::new();
    let mut k: usize = 0;
    while k < n
        invariant
            0 <= k <= n,
            by_first.len() == k,
            forall|i: int| 0 <= i < k ==> (#[trigger] by_first@[i])@ == Seq::<usize>::empty(),
        decreases n - k,
    {
        by_first.push(Vec::new());
        k = k + 1;
    }
    let half = stubs.len() / 2;
    let mut edges: Vec<((usize, usize), u64)> = Vec::new();
    let mut i: usize = 0;
    while i < half
        invariant
            0 <= i <= half,
            s == stubs@,
            s.len() == stubs.len(),
            half == s.len() / 2,
            forall|t: int| 0 <= t < s.len() ==> #[trigger] s[t] < n,
            by_first.len() == n,
            forall|a: int, q: int|
                0 <= a < n && 0 <= q < by_first@[a].len() ==> #[trigger] by_first@[a]@[q]
                    < edges.len() && edges@[by_first@[a]@[q] as int].0.0 == a,
            forall|j: int|
                0 <= j < edges.len() ==> edges@[j].0.0 < n && by_first@[(#[trigger] edges@[j]).0.0 as int]@.contains(
                    j as usize,
                ),
            forall|a: int, b: int| 0 <= a < b < edges.len() ==> (#[trigger] edges@[a]).0 != (#[trigger] edges@[b]).0,
            forall|j: int|
                0 <= j < edges.len() ==> (#[trigger] edges@[j]).0.0 < edges@[j].0.1 && edges@[j].0.1 < n && edges@[j].1 >= 1 && edges@[j].1 as nat
                    == pair_count(s, edges@[j].0, i as int),
            forall|p: (usize, usize)|
                p.0 != p.1 && #[trigger] pair_count(s, p, i as int) > 0 ==> exists|j: int|
                    0 <= j < edges.len() && (#[trigger] edges@[j]).0 == p,
        decreases half - i,
    {
        let x = stubs[2 * i];
        let y = stubs[2 * i + 1];
        let ghost sp = stub_pair(s, i as int);
        proof {
            assert forall|p: (usize, usize)| #[trigger] pair_count(s, p, i + 1) == pair_count(s, p, i as int)
                + if sp == p {
                1nat
            } else {
                0nat
            } by {}
        }
        if x != y {
            let (a, b) = edge_key(x, y);
            assert(sp == (a, b));
            let list = &by_first[a];
            let mut q: usize = 0;
            let mut found: bool = false;
            let mut at: usize = 0;
            while q < list.len() && !found
                invariant
                    0 <= q <= list.len(),
                    a < n,
                    list@ == by_first@[a as int]@,
                    forall|q2: int| 0 <= q2 < list.len() ==> #[trigger] list@[q2] < edges.len() && edges@[list@[q2] as int].0.0 == a,
                    found ==> at < edges.len() && edges@[at as int].0 == (a, b),
                    !found ==> forall|q2: int| 0 <= q2 < q ==> edges@[#[trigger] list@[q2] as int].0.1 != b,
                decreases list.len() - q + if found { 0int } else { 1int },
            {
                let e = list[q];
                if edges[e].0.1 == b {
                    found = true;
                    at = e;
                } else {
                    q = q + 1;
                }
            }
            if found {
                let w = edges[at].1;
                proof {
                    lemma_pair_count_bound(s, (a, b), i as int);
                }
                let ghost old_edges = edges@;
                edges.set(at, ((a, b), w + 1));
                proof {
                    assert forall|j: int| 0 <= j < edges.len() implies (#[trigger] edges@[j]).0.0 < edges@[j].0.1 && edges@[j].0.1 < n && edges@[j].1 >= 1 && edges@[j].1 as nat
                        == pair_count(s, edges@[j].0, i + 1) by {
                        if j != at {
                            assert(edges@[j] == old_edges[j]);
                            assert(old_edges[j].0 != old_edges[at as int].0);
                        }
                    }
                    assert forall|p: (usize, usize)|
                        p.0 != p.1 && #[trigger] pair_count(s, p, i + 1) > 0 implies exists|j: int|
                            0 <= j < edges.len() && (#[trigger] edges@[j]).0 == p by {
                        if p == (a, b) {
                            assert(edges@[at as int].0 == p);
                        } else {
                            let j = choose|j: int| 0 <= j < old_edges.len() && (#[trigger] old_edges[j]).0 == p;
                            assert(edges@[j].0 == p);
                        }
                    }
                    assert forall|j: int|
                        0 <= j < edges.len() implies edges@[j].0.0 < n && by_first@[(#[trigger] edges@[j]).0.0 as int]@.contains(
                            j as usize) by {
                        assert(edges@[j].0 == old_edges[j].0);
                    }
                }
            } else {
                proof {
                    assert forall|j: int| 0 <= j < edges.len() implies (#[trigger] edges@[j]).0 != (a, b) by {
                        if edges@[j].0 == (a, b) {
                            assert(by_first@[a as int]@.contains(j as usize));
                            let q2 = by_first@[a as int]@.index_of(j as usize);
                            assert(list@[q2] == j as usize);
                        }
                    }
                    assert(pair_count(s, (a, b), i as int) == 0);
                }
                let ghost old_edges = edges@;
                let ghost old_first = by_first@;
                let e = edges.len();
                push_at(&mut by_first, a, e);
                edges.push(((a, b), 1));
                proof {
                    assert forall|a2: int, q2: int|
                        0 <= a2 < n && 0 <= q2 < by_first@[a2].len() implies #[trigger] by_first@[a2]@[q2]
                            < edges.len() && edges@[by_first@[a2]@[q2] as int].0.0 == a2 by {
                        if a2 == a as int && q2 == old_first[a2]@.len() {
                        } else {
                            assert(by_first@[a2]@[q2] == old_first[a2]@[q2]);
                        }
                    }
                    assert forall|j: int|
                        0 <= j < edges.len() implies edges@[j].0.0 < n && by_first@[(#[trigger] edges@[j]).0.0 as int]@.contains(
                            j as usize) by {
                        if j == e {
                            assert(by_first@[a as int]@[old_first[a as int]@.len() as int] == e);
                        } else {
                            assert(edges@[j] == old_edges[j]);
                            let c = old_edges[j].0.0 as int;
                            assert(old_first[c]@.contains(j as usize));
                            let q2 = old_first[c]@.index_of(j as usize);
                            assert(by_first@[c]@[q2] == j as usize);
                        }
                    }
                    assert forall|j: int| 0 <= j < edges.len() implies (#[trigger] edges@[j]).0.0 < edges@[j].0.1 && edges@[j].0.1 < n && edges@[j].1 >= 1
                        && edges@[j].1 as nat == pair_count(s, edges@[j].0, i + 1) by {
                        if j < e {
                            assert(edges@[j] == old_edges[j]);
                        }
                    }
                    assert forall|p: (usize, usize)|
                        p.0 != p.1 && #[trigger] pair_count(s, p, i + 1) > 0 implies exists|j: int|
                            0 <= j < edges.len() && (#[trigger] edges@[j]).0 == p by {
                        if p == (a, b) {
                            assert(edges@[e as int].0 == p);
                        } else {
                            let j = choose|j: int| 0 <= j < old_edges.len() && (#[trigger] old_edges[j]).0 == p;
                            assert(edges@[j].0 == p);
                        }
                    }
                }
            }
        } else {
            proof {
                assert(sp.0 == sp.1);
                assert forall|p: (usize, usize)|
                    p.0 != p.1 && #[trigger] pair_count(s, p, i + 1) > 0 implies exists|j: int|
                        0 <= j < edges.len() && (#[trigger] edges@[j]).0 == p by {
                    assert(pair_count(s, p, i as int) > 0);
                }
                assert forall|j: int| 0 <= j < edges.len() implies (#[trigger] edges@[j]).0.0 < edges@[j].0.1 && edges@[j].0.1 < n && edges@[j].1 >= 1
                    && edges@[j].1 as nat == pair_count(s, edges@[j].0, i + 1) by {
                    assert(edges@[j].0 != sp);
                }
            }
        }
        i = i + 1;
    }
    let g = WeightedGraph { n, edges };
    proof {
        assert(is_pairing_multigraph(s, g.edges@));
    }
    g
}

/// Configuration-model random `d`-regular multigraph on `n` vertices: the
/// stub list is shuffled with the generator seeded from `seed` and paired
/// consecutively; self-loops are dropped and repeated edges merged, each
/// edge weighted by its multiplicity.
pub fn random_regular_graph(n: usize, d: usize, seed: u64) -> (g: WeightedGraph<u64>)
    requires
        n * d <= usize::MAX,
        (n * d) % 2 == 0,
    ensures
        g.n == n,
        g.well_formed(),
        is_pairing_multigraph(shuffled_stubs(n as nat, d as nat, seed), g.edges@),
{
    let mut stubs = stub_list(n, d);
    let ghost built = stubs@;
    shuffle_seeded(&mut stubs, seed);
    proof {
        lemma_reordered_stub_list(built, stubs@, n as nat, d as nat);
    }
    multigraph_from_stubs(n, &stubs)
}

/// Component-count bounds: a graph with at least one vertex has at least
/// one component (vertex 0 is always a root), and never more components
/// than vertices.
pub proof fn lemma_component_count_bounds(adj: Seq<Seq<usize>>, n: nat)
    ensures
        roots_below(adj, n) <= n,
        n > 0 ==> roots_below(adj, n) >= 1,
    decreases n,
{
    if n > 0 {
        lemma_component_count_bounds(adj, (n - 1) as nat);
        if n == 1 {
            assert(is_component_root(adj, 0));
        }
    }
}

/// A graph in which vertex 0 reaches every vertex has exactly one
/// component.
pub proof fn lemma_connected_has_one_component(adj: Seq<Seq<usize>>, n: nat)
    requires
        0 < n <= usize::MAX,
        forall|v: usize| v < n ==> #[trigger] reaches(adj, 0, v),
    ensures
        roots_below(adj, n) == 1,
    decreases n,
{
    if n == 1 {
        assert(is_component_root(adj, 0));
        assert(roots_below(adj, 0) == 0);
        assert(roots_below(adj, 1) == roots_below(adj, 0) + 1);
    } else {
        lemma_connected_has_one_component(adj, (n - 1) as nat);
        let v = (n - 1) as usize;
        assert(reaches(adj, 0, v));
        assert(0 < v);
        assert(!is_component_root(adj, v));
    }
}

/// On symmetric neighbor lists (as built from an undirected edge list),
/// reachability is symmetric, so each root counted by `count_components`
/// is the least vertex of an undirected connected component.
pub proof fn lemma_reaches_symmetric(adj: Seq<Seq<usize>>, u: usize, v: usize)
    requires
        forall|x: usize, y: usize|
            x < adj.len() && y < adj.len() ==> (#[trigger] adj[x as int].contains(y) <==> #[trigger] adj[y as int].contains(x)),
        adj_in_range(adj),
        u < adj.len(),
        reaches(adj, u, v),
    ensures
        reaches(adj, v, u),
{
    let p = choose|p: Seq<usize>| #[trigger] is_walk(adj, p) && p[0] == u && p.last() == v;
    let q = p.reverse();
    assert forall|i: int| 0 <= i < p.len() implies #[trigger] p[i] < adj.len() by {
        lemma_walk_in_range(adj, p, i);
    }
    assert forall|i: int| 0 < i < q.len() implies adj[q[i - 1] as int].contains(#[trigger] q[i]) by {
        let k = p.len() - i;
        assert(q[i - 1] == p[k]);
        assert(q[i] == p[k - 1]);
        assert(adj[p[k - 1] as int].contains(p[k]));
        assert(p[k - 1] < adj.len() && p[k] < adj.len());
    }
    assert(is_walk(adj, q));
    assert(q[0] == v && q.last() == u);
}

proof fn lemma_walk_in_range(adj: Seq<Seq<usize>>, p: Seq<usize>, i: int)
    requires
        is_walk(adj, p),
        adj_in_range(adj),
        p[0] < adj.len(),
        0 <= i < p.len(),
    ensures
        p[i] < adj.len(),
    decreases i,
{
    if i > 0 {
        lemma_walk_in_range(adj, p, i - 1);
        let x = p[i - 1] as int;
        assert(adj[x].contains(p[i]));
        let j = adj[x].index_of(p[i]);
        assert(adj[x][j] < adj.len());
    }
}

} // verus!
