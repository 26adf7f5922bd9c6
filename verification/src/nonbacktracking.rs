//! The non-backtracking (Hashimoto) structure of a graph.
//!
//! For a simple graph with m undirected edges, form the 2m directed arcs
//! (u→v) and (v→u). The Hashimoto operator B is the 2m×2m 0/1 matrix with
//! B[(u→v), (v→w)] = 1 iff w ≠ u: the walk continues at v without
//! immediately backtracking to u.  Ihara's theorem makes det(I − uB) the
//! inverse Ihara zeta function, and Tr(B^k) counts closed non-backtracking
//! walks of length k, which `count_closed_nbt_walks_bruteforce` counts
//! directly by walking the graph.

use vstd::prelude::*;
use crate::hypergraph::{
    WeightedGraph, edge_pairs, joined, lemma_neighbor_lists_handshake, lemma_neighbor_lists_shape,
    lists_view, neighbor_lists, pairs_in_range, simple_edges, total_len,
};

verus! {

/// The directed arcs of a graph: `arcs[i] = (u, v)` is the step u → v.
pub struct Arcs {
    pub arcs: Vec<(usize, usize)>,
}

/// The arcs (u, v) for every vertex u and every v in u's neighbor list,
/// vertex by vertex and in neighbor-list order.
pub open spec fn arcs_of(adj: Seq<Seq<usize>>) -> Seq<(usize, usize)>
    decreases adj.len(),
{
    if adj.len() == 0 {
        Seq::empty()
    } else {
        let u = (adj.len() - 1) as usize;
        arcs_of(adj.drop_last()) + adj.last().map_values(|v: usize| (u, v))
    }
}

/// The neighbor lists of a graph, as read from its edge list.
pub open spec fn graph_adj<W>(g: &WeightedGraph<W>) -> Seq<Seq<usize>> {
    neighbor_lists(g.n as nat, edge_pairs(g.edges@))
}

/// Builds the directed arcs of `g`: (u, v) for each u and each neighbor v.
pub fn build_arcs<W>(g: &WeightedGraph<W>) -> (a: Arcs)
    requires
        g.well_formed(),
    ensures
        a.arcs@ == arcs_of(graph_adj(g)),
{
    let adj = g.neighbors();
    proof {
        lemma_neighbor_lists_shape(g.n as nat, edge_pairs(g.edges@));
    }
    let mut arcs: Vec<(usize, usize)> = Vec::new();
    let mut u: usize = 0;
    while u < g.n
        invariant
            0 <= u <= g.n,
            adj.len() == g.n,
            lists_view(adj@) == graph_adj(g),
            arcs@ == arcs_of(lists_view(adj@).take(u as int)),
        decreases g.n - u,
    {
        let ghost before = arcs@;
        let mut j: usize = 0;
        while j < adj[u].len()
            invariant
                0 <= j <= adj[u as int].len(),
                u < adj.len(),
                arcs@ == before + adj[u as int]@.take(j as int).map_values(|v: usize| (u, v)),
            decreases adj[u as int].len() - j,
        {
            let v = adj[u][j];
            arcs.push((u, v));
            assert(adj[u as int]@.take(j + 1) =~= adj[u as int]@.take(j as int).push(v));
            assert(arcs@ =~= before + adj[u as int]@.take(j + 1).map_values(|v: usize| (u, v)));
            j = j + 1;
        }
        proof {
            let lv = lists_view(adj@);
            assert(lv.take(u + 1).drop_last() =~= lv.take(u as int));
            assert(adj[u as int]@.take(j as int) =~= adj[u as int]@);
            assert(lv.take(u + 1).last() == adj[u as int]@);
        }
        u = u + 1;
    }
    proof {
        assert(lists_view(adj@).take(g.n as int) =~= lists_view(adj@));
    }
    Arcs { arcs }
}

/// Arc `b` continues arc `a` without backtracking: b starts where a ends
/// and does not return to where a started.
pub open spec fn nb_step(a: (usize, usize), b: (usize, usize)) -> bool {
    b.0 == a.1 && b.1 != a.0
}

/// Row-major (lexicographic) order on index pairs.
pub open spec fn pair_lt(a: (usize, usize), b: (usize, usize)) -> bool {
    a.0 < b.0 || (a.0 == b.0 && a.1 < b.1)
}

/// The positions (i, j) of the nonzero entries of the Hashimoto matrix of
/// `arcs`, i.e. the pairs with arc j continuing arc i without
/// backtracking, in row-major order.
pub fn hashimoto_nonzeros(arcs: &Arcs) -> (nz: Vec<(usize, usize)>)
    ensures
        forall|i: usize, j: usize|
            #[trigger] nz@.contains((i, j)) <==> i < arcs.arcs.len() && j < arcs.arcs.len()
                && nb_step(arcs.arcs@[i as int], arcs.arcs@[j as int]),
        forall|p: int, q: int| 0 <= p < q < nz.len() ==> pair_lt(nz@[p], nz@[q]),
{
    let m = arcs.arcs.len();
    let mut nz: Vec<(usize, usize)> = Vec::new();
    let mut i: usize = 0;
    while i < m
        invariant
            0 <= i <= m,
            m == arcs.arcs.len(),
            forall|a: usize, b: usize|
                #[trigger] nz@.contains((a, b)) <==> a < i && b < m && nb_step(
                    arcs.arcs@[a as int],
                    arcs.arcs@[b as int],
                ),
            forall|p: int, q: int| 0 <= p < q < nz.len() ==> pair_lt(nz@[p], nz@[q]),
            forall|p: int| 0 <= p < nz.len() ==> (#[trigger] nz@[p]).0 < i,
        decreases m - i,
    {
        let (u, v) = arcs.arcs[i];
        let mut j: usize = 0;
        while j < m
            invariant
                0 <= i < m,
                0 <= j <= m,
                m == arcs.arcs.len(),
                (u, v) == arcs.arcs@[i as int],
                forall|a: usize, b: usize|
                    #[trigger] nz@.contains((a, b)) <==> (a < i && b < m && nb_step(
                        arcs.arcs@[a as int],
                        arcs.arcs@[b as int],
                    )) || (a == i && b < j && nb_step(arcs.arcs@[a as int], arcs.arcs@[b as int])),
                forall|p: int, q: int| 0 <= p < q < nz.len() ==> pair_lt(nz@[p], nz@[q]),
                forall|p: int|
                    0 <= p < nz.len() ==> (#[trigger] nz@[p]).0 < i || (nz@[p].0 == i && nz@[p].1
                        < j),
            decreases m - j,
        {
            let (v2, w) = arcs.arcs[j];
            if v2 == v && w != u {
                let ghost old_nz = nz@;
                nz.push((i, j));
                proof {
                    assert forall|a: usize, b: usize| #[trigger]
                        nz@.contains((a, b)) <==> (a < i && b < m && nb_step(
                            arcs.arcs@[a as int],
                            arcs.arcs@[b as int],
                        )) || (a == i && b < j + 1 && nb_step(
                            arcs.arcs@[a as int],
                            arcs.arcs@[b as int],
                        )) by {
                        if nz@.contains((a, b)) && (a, b) != (i, j) {
                            let k = nz@.index_of((a, b));
                            assert(old_nz[k] == (a, b));
                            assert(old_nz.contains((a, b)));
                        }
                        if (a < i && b < m && nb_step(arcs.arcs@[a as int], arcs.arcs@[b as int]))
                            || (a == i && b < j && nb_step(
                            arcs.arcs@[a as int],
                            arcs.arcs@[b as int],
                        )) {
                            assert(old_nz.contains((a, b)));
                            let k = old_nz.index_of((a, b));
                            assert(nz@[k] == (a, b));
                        }
                        if a == i && b == j {
                            assert(nz@[nz.len() - 1] == (a, b));
                        }
                    }
                }
            } else {
                proof {
                    assert forall|a: usize, b: usize| #[trigger]
                        nz@.contains((a, b)) <==> (a < i && b < m && nb_step(
                            arcs.arcs@[a as int],
                            arcs.arcs@[b as int],
                        )) || (a == i && b < j + 1 && nb_step(
                            arcs.arcs@[a as int],
                            arcs.arcs@[b as int],
                        )) by {
                        if a == i && b == j && nz@.contains((a, b)) {
                            let k = nz@.index_of((a, b));
                            assert(nz@[k] == (a, b));
                        }
                    }
                }
            }
            j = j + 1;
        }
        i = i + 1;
    }
    nz
}

/// Number of ways to finish a non-backtracking walk that started at
/// `start` with first step to `first`, has just moved from `prev` to `cur`,
/// and has `steps` steps left: each remaining step goes to a neighbor other
/// than the vertex just left, and the walk must end back at `start`
/// without its last step reversing its first (the wrap-around condition
/// that makes the walk closed as a cycle of arcs).
pub open spec fn nbt_completions(
    adj: Seq<Seq<usize>>,
    start: usize,
    first: usize,
    prev: usize,
    cur: usize,
    steps: nat,
) -> nat
    decreases steps, 1nat, 0nat,
{
    if steps == 0 {
        if cur == start && prev != first {
            1
        } else {
            0
        }
    } else {
        nbt_completions_via(adj, start, first, prev, cur, (steps - 1) as nat, adj[cur as int])
    }
}

/// Sum of `nbt_completions` over the candidate next vertices `nexts` (the
/// vertex just left, `prev`, excluded), `rest` steps remaining afterwards.
pub open spec fn nbt_completions_via(
    adj: Seq<Seq<usize>>,
    start: usize,
    first: usize,
    prev: usize,
    cur: usize,
    rest: nat,
    nexts: Seq<usize>,
) -> nat
    decreases rest + 1, 0nat, nexts.len(),
{
    if nexts.len() == 0 {
        0
    } else {
        let next = nexts.last();
        nbt_completions_via(adj, start, first, prev, cur, rest, nexts.drop_last()) + if next
            == prev {
            0
        } else {
            nbt_completions(adj, start, first, cur, next, rest)
        }
    }
}

/// Closed non-backtracking walks of length `k >= 1` whose first step goes
/// from `start` to one of `firsts`.
pub open spec fn nbt_walks_from(adj: Seq<Seq<usize>>, start: usize, k: nat, firsts: Seq<usize>) -> nat
    decreases firsts.len(),
{
    if firsts.len() == 0 {
        0
    } else {
        nbt_walks_from(adj, start, k, firsts.drop_last()) + nbt_completions(
            adj,
            start,
            firsts.last(),
            start,
            firsts.last(),
            (k - 1) as nat,
        )
    }
}

/// Closed non-backtracking walks of length `k >= 1` starting at a vertex
/// below `m`.
pub open spec fn nbt_walks_below(adj: Seq<Seq<usize>>, k: nat, m: nat) -> nat
    decreases m,
{
    if m == 0 {
        0
    } else {
        nbt_walks_below(adj, k, (m - 1) as nat) + nbt_walks_from(
            adj,
            (m - 1) as usize,
            k,
            adj[m - 1],
        )
    }
}

/// The number of closed non-backtracking walks of length `k` on the graph
/// with neighbor lists `adj`; for `k == 0`, the number of arcs (the trivial
/// walk at each arc).
pub open spec fn closed_nbt_count(adj: Seq<Seq<usize>>, k: nat) -> nat {
    if k == 0 {
        total_len(adj) as nat
    } else {
        nbt_walks_below(adj, k, adj.len())
    }
}

/// Every neighbor list of `adj` names vertices of `adj`.
pub open spec fn adj_in_range(adj: Seq<Seq<usize>>) -> bool {
    forall|u: int, j: int|
        0 <= u < adj.len() && 0 <= j < adj[u].len() ==> #[trigger] adj[u][j] < adj.len()
}

proof fn lemma_via_prefix_monotone(
    adj: Seq<Seq<usize>>,
    start: usize,
    first: usize,
    prev: usize,
    cur: usize,
    rest: nat,
    nexts: Seq<usize>,
    i: int,
)
    requires
        0 <= i <= nexts.len(),
    ensures
        nbt_completions_via(adj, start, first, prev, cur, rest, nexts.take(i))
            <= nbt_completions_via(adj, start, first, prev, cur, rest, nexts),
    decreases nexts.len() - i,
{
    if i < nexts.len() {
        lemma_via_prefix_monotone(adj, start, first, prev, cur, rest, nexts, i + 1);
        assert(nexts.take(i + 1).drop_last() =~= nexts.take(i));
    } else {
        assert(nexts.take(i) =~= nexts);
    }
}

proof fn lemma_from_prefix_monotone(
    adj: Seq<Seq<usize>>,
    start: usize,
    k: nat,
    firsts: Seq<usize>,
    i: int,
)
    requires
        0 <= i <= firsts.len(),
    ensures
        nbt_walks_from(adj, start, k, firsts.take(i)) <= nbt_walks_from(adj, start, k, firsts),
    decreases firsts.len() - i,
{
    if i < firsts.len() {
        lemma_from_prefix_monotone(adj, start, k, firsts, i + 1);
        assert(firsts.take(i + 1).drop_last() =~= firsts.take(i));
    } else {
        assert(firsts.take(i) =~= firsts);
    }
}

proof fn lemma_below_monotone(adj: Seq<Seq<usize>>, k: nat, i: nat, m: nat)
    requires
        i <= m,
    ensures
        nbt_walks_below(adj, k, i) <= nbt_walks_below(adj, k, m),
    decreases m - i,
{
    if i < m {
        lemma_below_monotone(adj, k, i, (m - 1) as nat);
    }
}

fn nbt_dfs(
    adj: &Vec<Vec<usize>>,
    start: usize,
    first: usize,
    prev: usize,
    cur: usize,
    steps_left: usize,
    count: &mut u64,
)
    requires
        cur < adj.len(),
        adj_in_range(lists_view(adj@)),
        *old(count) + nbt_completions(lists_view(adj@), start, first, prev, cur, steps_left as nat)
            <= u64::MAX,
    ensures
        *final(count) == *old(count) + nbt_completions(
            lists_view(adj@),
            start,
            first,
            prev,
            cur,
            steps_left as nat,
        ),
    decreases steps_left,
{
    let ghost a = lists_view(adj@);
    if steps_left == 0 {
        if cur == start && prev != first {
            *count = *count + 1;
        }
        return;
    }
    let ghost rest = (steps_left - 1) as nat;
    let ghost c0 = *count;
    let nexts = &adj[cur];
    assert(a[cur as int] == nexts@);
    let mut i: usize = 0;
    while i < nexts.len()
        invariant
            0 <= i <= nexts.len(),
            cur < adj.len(),
            a == lists_view(adj@),
            adj_in_range(a),
            nexts@ == a[cur as int],
            steps_left > 0,
            rest == steps_left - 1,
            c0 + nbt_completions_via(a, start, first, prev, cur, rest, nexts@) <= u64::MAX,
            *count == c0 + nbt_completions_via(a, start, first, prev, cur, rest, nexts@.take(i as int)),
        decreases nexts.len() - i,
    {
        let next = nexts[i];
        proof {
            assert(nexts@.take(i + 1).drop_last() =~= nexts@.take(i as int));
            assert(nexts@.take(i + 1).last() == next);
            lemma_via_prefix_monotone(a, start, first, prev, cur, rest, nexts@, i + 1);
            assert(a[cur as int][i as int] < a.len());
        }
        if next != prev {
            nbt_dfs(adj, start, first, cur, next, steps_left - 1, count);
        }
        i = i + 1;
    }
    proof {
        assert(nexts@.take(i as int) =~= nexts@);
    }
}

/// Brute-force count of closed non-backtracking walks of length `k`, by
/// direct traversal of the graph: vertex sequences v0, v1, ..., vk = v0
/// with consecutive vertices adjacent, no immediate backtrack at any
/// internal step, and no backtrack across the seam where the walk closes
/// (v1 != v(k-1)).  This is the quantity Tr(B^k) counts; for k = 0 the
/// count is the number of arcs.
pub fn count_closed_nbt_walks_bruteforce<W>(g: &WeightedGraph<W>, k: usize) -> (c: u64)
    requires
        g.well_formed(),
        closed_nbt_count(graph_adj(g), k as nat) <= u64::MAX,
    ensures
        c == closed_nbt_count(graph_adj(g), k as nat),
{
    let adj = g.neighbors();
    let ghost a = lists_view(adj@);
    proof {
        lemma_neighbor_lists_shape(g.n as nat, edge_pairs(g.edges@));
        assert(adj_in_range(a));
    }
    if k == 0 {
        let mut m2: u64 = 0;
        let mut u: usize = 0;
        while u < adj.len()
            invariant
                0 <= u <= adj.len(),
                a == lists_view(adj@),
                total_len(a) <= u64::MAX,
                m2 == total_len(a.take(u as int)),
            decreases adj.len() - u,
        {
            proof {
                assert(a.take(u + 1).drop_last() =~= a.take(u as int));
                lemma_total_len_prefix(a, u + 1);
            }
            m2 = m2 + adj[u].len() as u64;
            u = u + 1;
        }
        proof {
            assert(a.take(adj.len() as int) =~= a);
        }
        return m2;
    }
    let mut count: u64 = 0;
    let mut start: usize = 0;
    while start < g.n
        invariant
            0 <= start <= g.n,
            k >= 1,
            adj.len() == g.n,
            a == lists_view(adj@),
            a == graph_adj(g),
            adj_in_range(a),
            nbt_walks_below(a, k as nat, g.n as nat) <= u64::MAX,
            count == nbt_walks_below(a, k as nat, start as nat),
        decreases g.n - start,
    {
        let firsts = &adj[start];
        assert(a[start as int] == firsts@);
        let ghost c0 = count;
        proof {
            lemma_below_monotone(a, k as nat, (start + 1) as nat, g.n as nat);
        }
        let mut i: usize = 0;
        while i < firsts.len()
            invariant
                0 <= i <= firsts.len(),
                start < adj.len(),
                k >= 1,
                a == lists_view(adj@),
                adj_in_range(a),
                firsts@ == a[start as int],
                c0 + nbt_walks_from(a, start, k as nat, firsts@) <= u64::MAX,
                count == c0 + nbt_walks_from(a, start, k as nat, firsts@.take(i as int)),
            decreases firsts.len() - i,
        {
            let first = firsts[i];
            proof {
                assert(firsts@.take(i + 1).drop_last() =~= firsts@.take(i as int));
                assert(firsts@.take(i + 1).last() == first);
                lemma_from_prefix_monotone(a, start, k as nat, firsts@, i + 1);
                assert(a[start as int][i as int] < a.len());
            }
            nbt_dfs(&adj, start, first, start, first, k - 1, &mut count);
            i = i + 1;
        }
        proof {
            assert(firsts@.take(i as int) =~= firsts@);
        }
        start = start + 1;
    }
    count
}

proof fn lemma_total_len_prefix(a: Seq<Seq<usize>>, i: int)
    requires
        0 <= i <= a.len(),
    ensures
        total_len(a.take(i)) <= total_len(a),
    decreases a.len() - i,
{
    if i < a.len() {
        lemma_total_len_prefix(a, i + 1);
        assert(a.take(i + 1).drop_last() =~= a.take(i));
    } else {
        assert(a.take(i) =~= a);
    }
}

proof fn lemma_arcs_of_len(adj: Seq<Seq<usize>>)
    ensures
        arcs_of(adj).len() == total_len(adj),
    decreases adj.len(),
{
    if adj.len() > 0 {
        lemma_arcs_of_len(adj.drop_last());
    }
}

/// For a simple graph with m undirected edges there are exactly 2m
/// directed arcs: the Hashimoto matrix is 2m × 2m.
pub proof fn lemma_simple_graph_has_two_arcs_per_edge(n: nat, es: Seq<(usize, usize)>)
    requires
        pairs_in_range(es, n),
        simple_edges(es),
    ensures
        arcs_of(neighbor_lists(n, es)).len() == 2 * es.len(),
{
    lemma_arcs_of_len(neighbor_lists(n, es));
    lemma_neighbor_lists_handshake(n, es);
}


/// Entry (i, j) of the r-th power of the Hashimoto matrix B of `arcs`:
/// the number of non-backtracking walks of r arc-steps from arc i to arc
/// j.  B^0 is the identity and B^(r+1)[i][j] = Σ_l B[i][l] · B^r[l][j].
pub open spec fn hashimoto_power(arcs: Seq<(usize, usize)>, i: int, j: int, r: nat) -> nat
    decreases r, 1nat, 0nat,
{
    if r == 0 {
        if i == j {
            1
        } else {
            0
        }
    } else {
        hashimoto_power_row(arcs, i, j, (r - 1) as nat, arcs.len())
    }
}

/// Σ_{l < upto} B[i][l] · B^r[l][j], with B[i][l] = 1 when arc l continues
/// arc i without backtracking and 0 otherwise.
pub open spec fn hashimoto_power_row(
    arcs: Seq<(usize, usize)>,
    i: int,
    j: int,
    r: nat,
    upto: nat,
) -> nat
    decreases r + 1, 0nat, upto,
{
    if upto == 0 {
        0
    } else {
        hashimoto_power_row(arcs, i, j, r, (upto - 1) as nat) + if nb_step(
            arcs[i],
            arcs[upto - 1],
        ) {
            hashimoto_power(arcs, upto - 1, j, r)
        } else {
            0
        }
    }
}

/// Σ_{i < upto} B^k[i][i].
pub open spec fn hashimoto_trace_upto(arcs: Seq<(usize, usize)>, k: nat, upto: nat) -> nat
    decreases upto,
{
    if upto == 0 {
        0
    } else {
        hashimoto_trace_upto(arcs, k, (upto - 1) as nat) + hashimoto_power(
            arcs,
            upto - 1,
            upto - 1,
            k,
        )
    }
}

/// Tr(B^k) for the Hashimoto matrix B of `arcs`.
pub open spec fn hashimoto_trace(arcs: Seq<(usize, usize)>, k: nat) -> nat {
    hashimoto_trace_upto(arcs, k, arcs.len())
}

/// Position in `arcs_of(adj)` of the first arc leaving vertex `u`.
pub open spec fn arc_offset(adj: Seq<Seq<usize>>, u: int) -> int {
    total_len(adj.take(u))
}

proof fn lemma_arc_offset_step(adj: Seq<Seq<usize>>, u: int)
    requires
        0 <= u < adj.len(),
    ensures
        arc_offset(adj, u + 1) == arc_offset(adj, u) + adj[u].len(),
{
    assert(adj.take(u + 1).drop_last() =~= adj.take(u));
}

proof fn lemma_arc_offset_monotone(adj: Seq<Seq<usize>>, a: int, b: int)
    requires
        0 <= a <= b <= adj.len(),
    ensures
        arc_offset(adj, a) <= arc_offset(adj, b),
    decreases b - a,
{
    if a < b {
        lemma_arc_offset_monotone(adj, a, b - 1);
        lemma_arc_offset_step(adj, b - 1);
    }
}

proof fn lemma_arc_offset_nonneg(adj: Seq<Seq<usize>>, u: int)
    requires
        0 <= u <= adj.len(),
    ensures
        0 <= arc_offset(adj, u),
{
    lemma_arc_offset_monotone(adj, 0, u);
    lemma_arc_offset_ends(adj);
}

proof fn lemma_arc_offset_ends(adj: Seq<Seq<usize>>)
    ensures
        arc_offset(adj, 0) == 0,
        arc_offset(adj, adj.len() as int) == total_len(adj),
{
    assert(adj.take(0) =~= Seq::<Seq<usize>>::empty());
    assert(adj.take(adj.len() as int) =~= adj);
}

/// The arcs leaving vertex u fill positions arc_offset(u) up to
/// arc_offset(u + 1) of `arcs_of(adj)`, in neighbor-list order.
proof fn lemma_arc_at(adj: Seq<Seq<usize>>, u: int, j: int)
    requires
        adj.len() <= usize::MAX,
        0 <= u < adj.len(),
        0 <= j < adj[u].len(),
    ensures
        0 <= arc_offset(adj, u),
        arc_offset(adj, u) + j < total_len(adj),
        arcs_of(adj)[arc_offset(adj, u) + j] == (u as usize, adj[u][j]),
    decreases adj.len(),
{
    let n = adj.len() as int;
    let prev = adj.drop_last();
    lemma_arcs_of_len(prev);
    let blk = adj.last().map_values(|v: usize| ((n - 1) as usize, v));
    assert(arcs_of(adj) == arcs_of(prev) + blk);
    if u < n - 1 {
        lemma_arc_at(prev, u, j);
        assert(adj.take(u) =~= prev.take(u));
        assert(prev[u] == adj[u]);
    } else {
        assert(adj.take(n - 1) =~= prev);
        lemma_total_len_nonneg(prev);
        assert(arcs_of(adj)[arc_offset(adj, u) + j] == blk[j]);
    }
}

proof fn lemma_total_len_nonneg(adj: Seq<Seq<usize>>)
    ensures
        0 <= total_len(adj),
    decreases adj.len(),
{
    if adj.len() > 0 {
        lemma_total_len_nonneg(adj.drop_last());
    }
}

proof fn lemma_arc_in_block(adj: Seq<Seq<usize>>, l: int)
    requires
        adj.len() <= usize::MAX,
        0 <= l < total_len(adj),
    ensures
        arcs_of(adj)[l].0 < adj.len(),
        arc_offset(adj, arcs_of(adj)[l].0 as int) <= l < arc_offset(adj, arcs_of(adj)[l].0 + 1),
    decreases adj.len(),
{
    let n = adj.len() as int;
    let prev = adj.drop_last();
    lemma_arcs_of_len(prev);
    let pa = arcs_of(prev);
    let blk = adj.last().map_values(|v: usize| ((n - 1) as usize, v));
    assert(arcs_of(adj) == pa + blk);
    if l < pa.len() {
        lemma_arc_in_block(prev, l);
        let u = pa[l].0 as int;
        assert(adj.take(u) =~= prev.take(u));
        assert(adj.take(u + 1) =~= prev.take(u + 1));
    } else {
        assert(arcs_of(adj)[l] == blk[l - pa.len()]);
        assert(adj.take(n - 1) =~= prev);
        assert(adj.take(n) =~= adj);
    }
}

/// Arc l of `arcs_of(adj)` leaves the vertex whose block of positions,
/// arc_offset(u) up to arc_offset(u + 1), holds l.
proof fn lemma_arcs_of_layout(adj: Seq<Seq<usize>>)
    requires
        adj.len() <= usize::MAX,
    ensures
        arcs_of(adj).len() == total_len(adj),
        forall|l: int|
            0 <= l < total_len(adj) ==> (#[trigger] arcs_of(adj)[l]).0 < adj.len() && arc_offset(
                adj,
                arcs_of(adj)[l].0 as int,
            ) <= l < arc_offset(adj, arcs_of(adj)[l].0 + 1),
{
    lemma_arcs_of_len(adj);
    assert forall|l: int| 0 <= l < total_len(adj) implies (#[trigger] arcs_of(adj)[l]).0
        < adj.len() && arc_offset(adj, arcs_of(adj)[l].0 as int) <= l < arc_offset(
        adj,
        arcs_of(adj)[l].0 + 1,
    ) by {
        lemma_arc_in_block(adj, l);
    }
}

proof fn lemma_arc_head_in_range(adj: Seq<Seq<usize>>, c: int)
    requires
        adj.len() <= usize::MAX,
        adj_in_range(adj),
        0 <= c < total_len(adj),
    ensures
        arcs_of(adj)[c].1 < adj.len(),
{
    lemma_arcs_of_layout(adj);
    let u = arcs_of(adj)[c].0 as int;
    let j = c - arc_offset(adj, u);
    lemma_arc_offset_step(adj, u);
    lemma_arc_at(adj, u, j);
    assert(adj[u][j] < adj.len());
}

proof fn lemma_row_identity(arcs: Seq<(usize, usize)>, c: int, t: int, upto: nat)
    requires
        0 <= t,
    ensures
        hashimoto_power_row(arcs, c, t, 0, upto) == if t < upto && nb_step(arcs[c], arcs[t]) {
            1nat
        } else {
            0nat
        },
    decreases upto,
{
    if upto > 0 {
        lemma_row_identity(arcs, c, t, (upto - 1) as nat);
        let l = upto - 1;
        assert(hashimoto_power(arcs, l, t, 0) == if l == t {
            1nat
        } else {
            0nat
        });
    }
}

/// No arc before the block of `cur` continues an arc that ends at `cur`.
proof fn lemma_row_zero_below(adj: Seq<Seq<usize>>, c: int, t: int, r: nat, upto: nat)
    requires
        adj.len() <= usize::MAX,
        arcs_of(adj)[c].1 < adj.len(),
        upto <= arc_offset(adj, arcs_of(adj)[c].1 as int),
    ensures
        hashimoto_power_row(arcs_of(adj), c, t, r, upto) == 0,
    decreases upto,
{
    if upto > 0 {
        let a = arcs_of(adj);
        let cur = a[c].1 as int;
        lemma_row_zero_below(adj, c, t, r, (upto - 1) as nat);
        lemma_arcs_of_layout(adj);
        lemma_arc_offset_monotone(adj, cur, adj.len() as int);
        lemma_arc_offset_ends(adj);
        let l = upto - 1;
        let u = a[l].0 as int;
        if u >= cur {
            lemma_arc_offset_monotone(adj, cur, u);
        }
        assert(!nb_step(a[c], a[l]));
    }
}

/// Nor does any arc after the block of `cur`.
proof fn lemma_row_zero_above(adj: Seq<Seq<usize>>, c: int, t: int, r: nat, upto: nat)
    requires
        adj.len() <= usize::MAX,
        arcs_of(adj)[c].1 < adj.len(),
        arc_offset(adj, arcs_of(adj)[c].1 + 1) <= upto <= total_len(adj),
    ensures
        hashimoto_power_row(arcs_of(adj), c, t, r, upto) == hashimoto_power_row(
            arcs_of(adj),
            c,
            t,
            r,
            arc_offset(adj, arcs_of(adj)[c].1 + 1) as nat,
        ),
    decreases upto,
{
    let a = arcs_of(adj);
    let cur = a[c].1 as int;
    lemma_arc_offset_nonneg(adj, cur + 1);
    if upto > 0 && upto > arc_offset(adj, cur + 1) {
        lemma_row_zero_above(adj, c, t, r, (upto - 1) as nat);
        lemma_arcs_of_layout(adj);
        let l = upto - 1;
        let u = a[l].0 as int;
        if u <= cur {
            lemma_arc_offset_monotone(adj, u + 1, cur + 1);
        }
        assert(!nb_step(a[c], a[l]));
    }
}

/// Inside the block of `cur`, the row sum runs over the neighbors of `cur`
/// exactly as the walk count does, given that the two counts agree one
/// step further on.
proof fn lemma_row_block(
    adj: Seq<Seq<usize>>,
    s: usize,
    f: usize,
    c: int,
    t: int,
    steps: nat,
    j: int,
)
    requires
        adj.len() <= usize::MAX,
        0 <= c < total_len(adj),
        arcs_of(adj)[c].1 < adj.len(),
        steps >= 1,
        0 <= j <= adj[arcs_of(adj)[c].1 as int].len(),
        forall|l: int|
            0 <= l < total_len(adj) ==> nbt_completions(
                adj,
                s,
                f,
                (#[trigger] arcs_of(adj)[l]).0,
                arcs_of(adj)[l].1,
                (steps - 1) as nat,
            ) == hashimoto_power(arcs_of(adj), l, t, steps),
    ensures
        hashimoto_power_row(
            arcs_of(adj),
            c,
            t,
            steps,
            (arc_offset(adj, arcs_of(adj)[c].1 as int) + j) as nat,
        ) == hashimoto_power_row(
            arcs_of(adj),
            c,
            t,
            steps,
            arc_offset(adj, arcs_of(adj)[c].1 as int) as nat,
        ) + nbt_completions_via(
            adj,
            s,
            f,
            arcs_of(adj)[c].0,
            arcs_of(adj)[c].1,
            (steps - 1) as nat,
            adj[arcs_of(adj)[c].1 as int].take(j),
        ),
    decreases j,
{
    let a = arcs_of(adj);
    let prev = a[c].0;
    let cur = a[c].1;
    let nexts = adj[cur as int];
    lemma_arc_offset_nonneg(adj, cur as int);
    if j == 0 {
        assert(nexts.take(0) =~= Seq::<usize>::empty());
    } else {
        lemma_row_block(adj, s, f, c, t, steps, j - 1);
        lemma_arcs_of_layout(adj);
        let off = arc_offset(adj, cur as int);
        let next = nexts[j - 1];
        lemma_arc_at(adj, cur as int, j - 1);
        assert(a[off + j - 1] == (cur, next));
        assert(nexts.take(j).drop_last() =~= nexts.take(j - 1));
        assert(nexts.take(j).last() == next);
        assert(nbt_completions(adj, s, f, cur, next, (steps - 1) as nat) == hashimoto_power(
            a,
            off + j - 1,
            t,
            steps,
        ));
    }
}

/// The walks that `nbt_completions` counts are the Hashimoto-matrix walks
/// from the current arc (prev → cur) back to the first arc (s → f).
proof fn lemma_completions_are_hashimoto_walks(
    adj: Seq<Seq<usize>>,
    s: usize,
    f: usize,
    c: int,
    t: int,
    steps: nat,
)
    requires
        adj.len() <= usize::MAX,
        adj_in_range(adj),
        0 <= c < total_len(adj),
        0 <= t < total_len(adj),
        arcs_of(adj)[t] == (s, f),
    ensures
        nbt_completions(adj, s, f, arcs_of(adj)[c].0, arcs_of(adj)[c].1, steps) == hashimoto_power(
            arcs_of(adj),
            c,
            t,
            steps + 1,
        ),
    decreases steps,
{
    let a = arcs_of(adj);
    lemma_arcs_of_layout(adj);
    let m = total_len(adj);
    if steps == 0 {
        lemma_row_identity(a, c, t, m as nat);
    } else {
        assert forall|l: int| 0 <= l < m implies nbt_completions(
            adj,
            s,
            f,
            (#[trigger] a[l]).0,
            a[l].1,
            (steps - 1) as nat,
        ) == hashimoto_power(a, l, t, steps) by {
            lemma_completions_are_hashimoto_walks(adj, s, f, l, t, (steps - 1) as nat);
        }
        lemma_arc_head_in_range(adj, c);
        let cur = a[c].1 as int;
        lemma_arc_offset_step(adj, cur);
        lemma_arc_offset_nonneg(adj, cur);
        lemma_arc_offset_monotone(adj, cur + 1, adj.len() as int);
        lemma_arc_offset_ends(adj);
        lemma_row_zero_below(adj, c, t, steps, arc_offset(adj, cur) as nat);
        lemma_row_block(adj, s, f, c, t, steps, adj[cur].len() as int);
        lemma_row_zero_above(adj, c, t, steps, m as nat);
        assert(adj[cur].take(adj[cur].len() as int) =~= adj[cur]);
    }
}

proof fn lemma_walks_from_block(adj: Seq<Seq<usize>>, k: nat, u: int, j: int)
    requires
        adj.len() <= usize::MAX,
        adj_in_range(adj),
        k >= 1,
        0 <= u < adj.len(),
        0 <= j <= adj[u].len(),
    ensures
        hashimoto_trace_upto(arcs_of(adj), k, (arc_offset(adj, u) + j) as nat)
            == hashimoto_trace_upto(arcs_of(adj), k, arc_offset(adj, u) as nat) + nbt_walks_from(
            adj,
            u as usize,
            k,
            adj[u].take(j),
        ),
    decreases j,
{
    lemma_arc_offset_nonneg(adj, u);
    if j == 0 {
        assert(adj[u].take(0) =~= Seq::<usize>::empty());
    } else {
        lemma_walks_from_block(adj, k, u, j - 1);
        lemma_arcs_of_layout(adj);
        let a = arcs_of(adj);
        let off = arc_offset(adj, u);
        let first = adj[u][j - 1];
        lemma_arc_at(adj, u, j - 1);
        assert(adj[u].take(j).drop_last() =~= adj[u].take(j - 1));
        assert(adj[u].take(j).last() == first);
        lemma_completions_are_hashimoto_walks(
            adj,
            u as usize,
            first,
            off + j - 1,
            off + j - 1,
            (k - 1) as nat,
        );
    }
}

proof fn lemma_walks_below_trace(adj: Seq<Seq<usize>>, k: nat, u: int)
    requires
        adj.len() <= usize::MAX,
        adj_in_range(adj),
        k >= 1,
        0 <= u <= adj.len(),
    ensures
        nbt_walks_below(adj, k, u as nat) == hashimoto_trace_upto(
            arcs_of(adj),
            k,
            arc_offset(adj, u) as nat,
        ),
    decreases u,
{
    lemma_arc_offset_nonneg(adj, u);
    if u == 0 {
        lemma_arc_offset_ends(adj);
    } else {
        lemma_arc_offset_nonneg(adj, u - 1);
        lemma_walks_below_trace(adj, k, u - 1);
        lemma_walks_from_block(adj, k, u - 1, adj[u - 1].len() as int);
        lemma_arc_offset_step(adj, u - 1);
        assert(adj[u - 1].take(adj[u - 1].len() as int) =~= adj[u - 1]);
    }
}

proof fn lemma_trace_of_identity(arcs: Seq<(usize, usize)>, upto: nat)
    ensures
        hashimoto_trace_upto(arcs, 0, upto) == upto,
    decreases upto,
{
    if upto > 0 {
        lemma_trace_of_identity(arcs, (upto - 1) as nat);
    }
}

/// The trace formula for closed non-backtracking walks: for every k, the
/// number of closed non-backtracking walks of length k on a graph (what
/// `count_closed_nbt_walks_bruteforce` returns) equals Tr(B^k), B the
/// Hashimoto matrix over the graph's arcs (the arcs `build_arcs` lists,
/// B's nonzero pattern the one `hashimoto_nonzeros` returns).
pub proof fn lemma_closed_nbt_count_is_hashimoto_trace<W>(g: &WeightedGraph<W>, k: nat)
    requires
        g.well_formed(),
    ensures
        closed_nbt_count(graph_adj(g), k) == hashimoto_trace(arcs_of(graph_adj(g)), k),
{
    let adj = graph_adj(g);
    lemma_neighbor_lists_shape(g.n as nat, edge_pairs(g.edges@));
    assert(adj_in_range(adj));
    lemma_arcs_of_layout(adj);
    lemma_arc_offset_ends(adj);
    if k == 0 {
        lemma_trace_of_identity(arcs_of(adj), arcs_of(adj).len());
    } else {
        lemma_walks_below_trace(adj, k, adj.len() as int);
    }
}


proof fn lemma_no_short_completions(adj: Seq<Seq<usize>>, s: usize, f: usize, nexts: Seq<usize>)
    ensures
        nbt_completions(adj, s, f, s, f, 0) == 0,
        nbt_completions_via(adj, s, f, s, f, 0, nexts) == 0,
    decreases nexts.len(),
{
    if nexts.len() > 0 {
        lemma_no_short_completions(adj, s, f, nexts.drop_last());
        assert(nbt_completions(adj, s, f, f, nexts.last(), 0) == 0);
    }
}

proof fn lemma_no_short_walks_from(adj: Seq<Seq<usize>>, s: usize, k: nat, firsts: Seq<usize>)
    requires
        k == 1 || k == 2,
    ensures
        nbt_walks_from(adj, s, k, firsts) == 0,
    decreases firsts.len(),
{
    if firsts.len() > 0 {
        lemma_no_short_walks_from(adj, s, k, firsts.drop_last());
        let f = firsts.last();
        lemma_no_short_completions(adj, s, f, adj[f as int]);
    }
}

proof fn lemma_no_short_walks_below(adj: Seq<Seq<usize>>, k: nat, m: nat)
    requires
        k == 1 || k == 2,
    ensures
        nbt_walks_below(adj, k, m) == 0,
    decreases m,
{
    if m > 0 {
        lemma_no_short_walks_below(adj, k, (m - 1) as nat);
        lemma_no_short_walks_from(adj, (m - 1) as usize, k, adj[m - 1]);
    }
}

/// There is no closed non-backtracking walk of length 1 or 2 on any graph:
/// one step out and straight back is a backtrack at the seam (a loop
/// u → u reverses itself), and u → v → u backtracks at v.
pub proof fn lemma_no_closed_nbt_walks_of_length_one_or_two(adj: Seq<Seq<usize>>)
    ensures
        closed_nbt_count(adj, 1) == 0,
        closed_nbt_count(adj, 2) == 0,
{
    lemma_no_short_walks_below(adj, 1, adj.len());
    lemma_no_short_walks_below(adj, 2, adj.len());
}


/// The arcs of a graph are its directed edges, each once: (u, v) is an
/// arc exactly when some edge joins u and v, and no arc is listed twice.
pub proof fn lemma_arcs_are_directed_edges(n: nat, es: Seq<(usize, usize)>)
    requires
        pairs_in_range(es, n),
        n <= usize::MAX,
    ensures
        forall|u: usize, v: usize|
            #[trigger] arcs_of(neighbor_lists(n, es)).contains((u, v)) <==> u < n && joined(
                es,
                u,
                v,
            ),
        arcs_of(neighbor_lists(n, es)).no_duplicates(),
{
    let adj = neighbor_lists(n, es);
    let a = arcs_of(adj);
    lemma_neighbor_lists_shape(n, es);
    lemma_arcs_of_layout(adj);
    assert forall|u: usize, v: usize| #[trigger] a.contains((u, v)) <==> u < n && joined(es, u, v) by {
        if a.contains((u, v)) {
            let l = a.index_of((u, v));
            let j = l - arc_offset(adj, u as int);
            lemma_arc_offset_step(adj, u as int);
            lemma_arc_at(adj, u as int, j);
            assert(adj[u as int][j] == v);
            assert(adj[u as int].contains(v));
        }
        if u < n && joined(es, u, v) {
            assert(adj[u as int].contains(v));
            let j = adj[u as int].index_of(v);
            lemma_arc_at(adj, u as int, j);
            assert(a[arc_offset(adj, u as int) + j] == (u, v));
        }
    }
    assert forall|i: int, k: int| 0 <= i < a.len() && 0 <= k < a.len() && i != k implies a[i]
        != a[k] by {
        if a[i] == a[k] {
            let u = a[i].0 as int;
            let ji = i - arc_offset(adj, u);
            let jk = k - arc_offset(adj, u);
            lemma_arc_offset_step(adj, u);
            lemma_arc_at(adj, u, ji);
            lemma_arc_at(adj, u, jk);
            assert(adj[u].no_duplicates());
            assert(adj[u][ji] == adj[u][jk]);
        }
    }
}


/// `d` to the power `e`.
pub open spec fn nat_pow(d: nat, e: nat) -> nat
    decreases e,
{
    if e == 0 {
        1
    } else {
        d * nat_pow(d, (e - 1) as nat)
    }
}

/// No neighbor list of `adj` has more than `d` entries.
pub open spec fn max_degree_at_most(adj: Seq<Seq<usize>>, d: nat) -> bool {
    forall|u: int| 0 <= u < adj.len() ==> #[trigger] adj[u].len() <= d
}

proof fn lemma_completions_bound(
    adj: Seq<Seq<usize>>,
    d: nat,
    start: usize,
    first: usize,
    prev: usize,
    cur: usize,
    steps: nat,
)
    requires
        adj_in_range(adj),
        max_degree_at_most(adj, d),
        cur < adj.len(),
    ensures
        nbt_completions(adj, start, first, prev, cur, steps) <= nat_pow(d, steps),
    decreases steps, 1nat, 0nat,
{
    if steps > 0 {
        let nexts = adj[cur as int];
        assert forall|i: int| 0 <= i < nexts.len() implies #[trigger] nexts[i] < adj.len() by {
            assert(adj[cur as int][i] < adj.len());
        }
        lemma_via_bound(adj, d, start, first, prev, cur, (steps - 1) as nat, nexts);
        let p = nat_pow(d, (steps - 1) as nat);
        let l = nexts.len();
        assert(l * p <= d * p) by (nonlinear_arith)
            requires
                l <= d,
        ;
    }
}

proof fn lemma_via_bound(
    adj: Seq<Seq<usize>>,
    d: nat,
    start: usize,
    first: usize,
    prev: usize,
    cur: usize,
    rest: nat,
    nexts: Seq<usize>,
)
    requires
        adj_in_range(adj),
        max_degree_at_most(adj, d),
        forall|i: int| 0 <= i < nexts.len() ==> #[trigger] nexts[i] < adj.len(),
    ensures
        nbt_completions_via(adj, start, first, prev, cur, rest, nexts) <= nexts.len() * nat_pow(
            d,
            rest,
        ),
    decreases rest + 1, 0nat, nexts.len(),
{
    if nexts.len() > 0 {
        let shorter = nexts.drop_last();
        assert forall|i: int| 0 <= i < shorter.len() implies #[trigger] shorter[i] < adj.len() by {
            assert(nexts[i] < adj.len());
        }
        lemma_via_bound(adj, d, start, first, prev, cur, rest, shorter);
        let next = nexts.last();
        assert(next < adj.len());
        if next != prev {
            lemma_completions_bound(adj, d, start, first, cur, next, rest);
        }
        let p = nat_pow(d, rest);
        let l = nexts.len();
        assert((l - 1) * p + p == l * p) by (nonlinear_arith);
    }
}

proof fn lemma_walks_from_bound(adj: Seq<Seq<usize>>, d: nat, start: usize, k: nat, firsts: Seq<usize>)
    requires
        adj_in_range(adj),
        max_degree_at_most(adj, d),
        forall|i: int| 0 <= i < firsts.len() ==> #[trigger] firsts[i] < adj.len(),
    ensures
        nbt_walks_from(adj, start, k, firsts) <= firsts.len() * nat_pow(d, (k - 1) as nat),
    decreases firsts.len(),
{
    if firsts.len() > 0 {
        let shorter = firsts.drop_last();
        assert forall|i: int| 0 <= i < shorter.len() implies #[trigger] shorter[i] < adj.len() by {
            assert(firsts[i] < adj.len());
        }
        lemma_walks_from_bound(adj, d, start, k, shorter);
        let f = firsts.last();
        assert(f < adj.len());
        lemma_completions_bound(adj, d, start, f, start, f, (k - 1) as nat);
        let p = nat_pow(d, (k - 1) as nat);
        let l = firsts.len();
        assert((l - 1) * p + p == l * p) by (nonlinear_arith);
    }
}

proof fn lemma_walks_below_bound(adj: Seq<Seq<usize>>, d: nat, k: nat, m: nat)
    requires
        adj_in_range(adj),
        max_degree_at_most(adj, d),
        m <= adj.len(),
        m <= usize::MAX + 1,
    ensures
        nbt_walks_below(adj, k, m) <= total_len(adj.take(m as int)) * nat_pow(d, (k - 1) as nat),
    decreases m,
{
    if m > 0 {
        lemma_walks_below_bound(adj, d, k, (m - 1) as nat);
        let u = (m - 1) as int;
        let firsts = adj[u];
        assert forall|i: int| 0 <= i < firsts.len() implies #[trigger] firsts[i] < adj.len() by {
            assert(adj[u][i] < adj.len());
        }
        assert(((m - 1) as usize) as int == u);
        lemma_walks_from_bound(adj, d, (m - 1) as usize, k, firsts);
        lemma_arc_offset_step(adj, u);
        let p = nat_pow(d, (k - 1) as nat);
        let a = total_len(adj.take(u));
        let l = firsts.len();
        assert(a * p + l * p == (a + l) * p) by (nonlinear_arith);
    }
}

/// How large the closed non-backtracking walk count can get: when no
/// vertex has more than `d` neighbors, a walk of length k >= 1 starts on
/// one of the arcs and has at most `d` choices at each of its k - 1 later
/// steps, so there are at most (number of arcs) · d^(k-1) of them; for
/// k = 0 the count is the number of arcs.
pub proof fn lemma_closed_nbt_count_bound(adj: Seq<Seq<usize>>, k: nat, d: nat)
    requires
        adj_in_range(adj),
        max_degree_at_most(adj, d),
        adj.len() <= usize::MAX,
    ensures
        k == 0 ==> closed_nbt_count(adj, k) == total_len(adj),
        k >= 1 ==> closed_nbt_count(adj, k) <= total_len(adj) * nat_pow(d, (k - 1) as nat),
{
    if k >= 1 {
        lemma_walks_below_bound(adj, d, k, adj.len());
        assert(adj.take(adj.len() as int) =~= adj);
    } else {
        lemma_total_len_nonneg(adj);
    }
}

} // verus!
