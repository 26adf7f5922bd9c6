//! Hypergraphs and the weighted graphs they reduce to.
//!
//! A hypergraph H = (V, E) has hyperedges e ⊆ V with |e| >= 2; everything
//! downstream (Laplacians, the non-backtracking operator, the Ihara zeta
//! function) is defined on ordinary graphs, reached by clique expansion.
//! Edge and hyperedge weights are carried as a type parameter: the
//! combinatorics in this crate never inspect them.

use vstd::prelude::*;
use crate::regge::{edge_key, spec_edge_key};

verus! {

/// A hypergraph on vertices `0..n_vertices`; each hyperedge is its member
/// list together with a weight.
#[derive(Debug, Clone)]
pub struct Hypergraph<W> {
    pub n_vertices: usize,
    pub hyperedges: Vec<(Vec<usize>, W)>,
}

/// Every entry of `members` is a vertex of a graph on `n` vertices.
pub open spec fn members_in_range(members: Seq<usize>, n: nat) -> bool {
    forall|i: int| 0 <= i < members.len() ==> #[trigger] members[i] < n
}

impl<W> Hypergraph<W> {
    /// The hypergraph on `n_vertices` vertices with no hyperedges.
    pub fn new(n_vertices: usize) -> (h: Self)
        ensures
            h.n_vertices == n_vertices,
            h.hyperedges@.len() == 0,
    {
        Hypergraph { n_vertices, hyperedges: Vec::new() }
    }

    /// Appends the hyperedge `members` with weight `weight`.  A hyperedge
    /// has at least two members, each a vertex of the hypergraph.
    pub fn add_hyperedge(&mut self, members: Vec<usize>, weight: W)
        requires
            members.len() >= 2,
            members_in_range(members@, old(self).n_vertices as nat),
        ensures
            final(self).n_vertices == old(self).n_vertices,
            final(self).hyperedges@ == old(self).hyperedges@.push((members, weight)),
    {
        self.hyperedges.push((members, weight));
    }
}

/// An undirected graph on vertices `0..n`, given as a list of weighted
/// edges `((u, v), w)`; the output of clique expansion.
#[derive(Debug, Clone)]
pub struct WeightedGraph<W> {
    pub n: usize,
    pub edges: Vec<((usize, usize), W)>,
}

/// The endpoint pairs of a weighted edge list.
pub open spec fn edge_pairs<W>(edges: Seq<((usize, usize), W)>) -> Seq<(usize, usize)> {
    edges.map_values(|e: ((usize, usize), W)| e.0)
}

/// Every endpoint in `es` is a vertex of a graph on `n` vertices.
pub open spec fn pairs_in_range(es: Seq<(usize, usize)>, n: nat) -> bool {
    forall|i: int| 0 <= i < es.len() ==> #[trigger] es[i].0 < n && es[i].1 < n
}

/// Adds `y` to list `x` unless it is already there.
pub open spec fn add_neighbor(adj: Seq<Seq<usize>>, x: int, y: usize) -> Seq<Seq<usize>> {
    if adj[x].contains(y) {
        adj
    } else {
        adj.update(x, adj[x].push(y))
    }
}

/// Neighbor lists after reading the edge list `es` in order: each edge
/// (u, v) adds v to u's list and then u to v's list, each only if absent.
/// So every list holds each neighbor once, in order of first appearance.
pub open spec fn neighbor_lists(n: nat, es: Seq<(usize, usize)>) -> Seq<Seq<usize>>
    decreases es.len(),
{
    if es.len() == 0 {
        Seq::new(n, |i: int| Seq::<usize>::empty())
    } else {
        let (u, v) = es.last();
        add_neighbor(add_neighbor(neighbor_lists(n, es.drop_last()), u as int, v), v as int, u)
    }
}

/// The contents of a list of vectors.
pub open spec fn lists_view(lists: Seq<Vec<usize>>) -> Seq<Seq<usize>> {
    lists.map_values(|l: Vec<usize>| l@)
}

/// Whether `x` occurs in `l`.
pub fn vec_contains(l: &Vec<usize>, x: usize) -> (r: bool)
    ensures
        r == l@.contains(x),
{
    let mut i: usize = 0;
    while i < l.len()
        invariant
            0 <= i <= l.len(),
            forall|j: int| 0 <= j < i ==> l@[j] != x,
        decreases l.len() - i,
    {
        if l[i] == x {
            return true;
        }
        i = i + 1;
    }
    false
}


/// Some edge of `es` joins `u` and `v` (in either orientation).
pub open spec fn joined(es: Seq<(usize, usize)>, u: usize, v: usize) -> bool {
    exists|i: int|
        0 <= i < es.len() && ((#[trigger] es[i]).0 == u && es[i].1 == v || es[i].0 == v && es[i].1
            == u)
}

/// No edge is a self-loop and no unordered pair occurs twice.
pub open spec fn simple_edges(es: Seq<(usize, usize)>) -> bool {
    &&& forall|i: int| 0 <= i < es.len() ==> (#[trigger] es[i]).0 != es[i].1
    &&& forall|i: int, j: int|
        0 <= i < j < es.len() ==> !((#[trigger] es[i]).0 == (#[trigger] es[j]).0 && es[i].1
            == es[j].1 || es[i].0 == es[j].1 && es[i].1 == es[j].0)
}

/// Sum of the lengths of the lists in `adj`.
pub open spec fn total_len(adj: Seq<Seq<usize>>) -> int
    decreases adj.len(),
{
    if adj.len() == 0 {
        0
    } else {
        total_len(adj.drop_last()) + adj.last().len()
    }
}

proof fn lemma_total_len_update(adj: Seq<Seq<usize>>, x: int, l: Seq<usize>)
    requires
        0 <= x < adj.len(),
    ensures
        total_len(adj.update(x, l)) == total_len(adj) - adj[x].len() + l.len(),
    decreases adj.len(),
{
    let a2 = adj.update(x, l);
    if x == adj.len() - 1 {
        assert(a2.drop_last() =~= adj.drop_last());
    } else {
        lemma_total_len_update(adj.drop_last(), x, l);
        assert(a2.drop_last() =~= adj.drop_last().update(x, l));
    }
}

/// Shape of the neighbor lists: one list per vertex, every neighbor a
/// vertex, `v` listed for `u` exactly when some edge joins them, and no
/// list repeats a neighbor.
pub proof fn lemma_neighbor_lists_shape(n: nat, es: Seq<(usize, usize)>)
    requires
        pairs_in_range(es, n),
    ensures
        neighbor_lists(n, es).len() == n,
        forall|u: int| 0 <= u < n ==> (#[trigger] neighbor_lists(n, es)[u]).no_duplicates(),
        forall|u: usize, v: usize|
            u < n ==> (#[trigger] neighbor_lists(n, es)[u as int].contains(v) <==> joined(es, u, v)),
        forall|u: int, j: int|
            0 <= u < n && 0 <= j < neighbor_lists(n, es)[u].len() ==> #[trigger] neighbor_lists(
                n,
                es,
            )[u][j] < n,
    decreases es.len(),
{
    let nl = neighbor_lists(n, es);
    if es.len() == 0 {
        assert forall|u: usize, v: usize| u < n implies (#[trigger] nl[u as int].contains(v)
            <==> joined(es, u, v)) by {}
    } else {
        let prev = es.drop_last();
        lemma_neighbor_lists_shape(n, prev);
        let (a, b) = es.last();
        let p = neighbor_lists(n, prev);
        let p1 = add_neighbor(p, a as int, b);
        assert(es[es.len() - 1] == (a, b));
        assert forall|u: int| 0 <= u < n implies (#[trigger] nl[u]).no_duplicates() by {
            assert(p[u].no_duplicates());
            assert(p1[u].no_duplicates());
        }
        assert forall|u: usize, v: usize| u < n implies (#[trigger] nl[u as int].contains(v)
            <==> joined(es, u, v)) by {
            let ui = u as int;
            if joined(es, u, v) {
                let i = choose|i: int|
                    0 <= i < es.len() && ((#[trigger] es[i]).0 == u && es[i].1 == v
                        || es[i].0 == v && es[i].1 == u);
                if i < es.len() - 1 {
                    assert(prev[i] == es[i]);
                    assert(joined(prev, u, v));
                    assert(p[ui].contains(v));
                    let k = p[ui].index_of(v);
                    assert(p1[ui][k] == v);
                    assert(nl[ui][k] == v);
                } else if u == a && v == b {
                    assert(p1[ui].contains(v)) by {
                        if !p[ui].contains(v) {
                            assert(p1[ui][p[ui].len() as int] == v);
                        }
                    }
                    let k = p1[ui].index_of(v);
                    assert(nl[ui][k] == v);
                } else {
                    assert(u == b && v == a);
                    if !p1[ui].contains(v) {
                        assert(nl[ui][p1[ui].len() as int] == v);
                    }
                }
            }
            if nl[ui].contains(v) {
                if p[ui].contains(v) {
                    let i = choose|i: int|
                        0 <= i < prev.len() && ((#[trigger] prev[i]).0 == u && prev[i].1
                            == v || prev[i].0 == v && prev[i].1 == u);
                    assert(es[i] == prev[i]);
                } else {
                    assert(es[es.len() - 1] == (a, b));
                }
            }
        }
        assert forall|u: int, j: int|
            0 <= u < n && 0 <= j < nl[u].len() implies #[trigger] nl[u][j] < n by {
            assert(es[es.len() - 1] == (a, b));
            if j < p[u].len() {
                assert(p[u][j] < n);
            }
        }
    }
}

/// Handshake lemma: on a simple edge list (no self-loops, no repeated
/// pair) the neighbor lists hold exactly two entries per edge.
pub proof fn lemma_neighbor_lists_handshake(n: nat, es: Seq<(usize, usize)>)
    requires
        pairs_in_range(es, n),
        simple_edges(es),
    ensures
        total_len(neighbor_lists(n, es)) == 2 * es.len(),
    decreases es.len(),
{
    if es.len() == 0 {
        let e = Seq::new(n, |i: int| Seq::<usize>::empty());
        assert forall|k: nat| k <= n implies total_len(#[trigger] e.take(k as int)) == 0 by {
            lemma_total_len_zero(e, k);
        }
        assert(e.take(n as int) =~= e);
    } else {
        let prev = es.drop_last();
        let (a, b) = es.last();
        assert(es[es.len() - 1] == (a, b));
        assert(simple_edges(prev)) by {
            assert forall|i: int, j: int| 0 <= i < j < prev.len() implies !((
            #[trigger] prev[i]).0 == (#[trigger] prev[j]).0 && prev[i].1 == prev[j].1 || prev[i].0
                == prev[j].1 && prev[i].1 == prev[j].0) by {
                assert(es[i] == prev[i] && es[j] == prev[j]);
            }
            assert forall|i: int| 0 <= i < prev.len() implies (#[trigger] prev[i]).0 != prev[i].1 by {
                assert(es[i] == prev[i]);
            }
        }
        lemma_neighbor_lists_handshake(n, prev);
        lemma_neighbor_lists_shape(n, prev);
        let p = neighbor_lists(n, prev);
        assert(a != b) by {
            assert(es[es.len() - 1].0 != es[es.len() - 1].1);
        }
        assert(!joined(prev, a, b)) by {
            if joined(prev, a, b) {
                let i = choose|i: int|
                    0 <= i < prev.len() && ((#[trigger] prev[i]).0 == a && prev[i].1 == b
                        || prev[i].0 == b && prev[i].1 == a);
                assert(es[i] == prev[i]);
                assert(!((es[i]).0 == (es[es.len() - 1]).0 && es[i].1 == es[es.len() - 1].1
                    || es[i].0 == es[es.len() - 1].1 && es[i].1 == es[es.len() - 1].0));
            }
        }
        assert(!joined(prev, b, a));
        assert(!p[a as int].contains(b));
        assert(!p[b as int].contains(a));
        let p1 = p.update(a as int, p[a as int].push(b));
        lemma_total_len_update(p, a as int, p[a as int].push(b));
        assert(p1[b as int] == p[b as int]);
        lemma_total_len_update(p1, b as int, p1[b as int].push(a));
    }
}

proof fn lemma_total_len_zero(e: Seq<Seq<usize>>, k: nat)
    requires
        k <= e.len(),
        forall|i: int| 0 <= i < e.len() ==> (#[trigger] e[i]).len() == 0,
    ensures
        total_len(e.take(k as int)) == 0,
    decreases k,
{
    if k > 0 {
        lemma_total_len_zero(e, (k - 1) as nat);
        assert(e.take(k as int).drop_last() =~= e.take(k - 1));
    }
}

impl<W> WeightedGraph<W> {
    /// Every edge endpoint is a vertex of the graph.
    pub open spec fn well_formed(&self) -> bool {
        pairs_in_range(edge_pairs(self.edges@), self.n as nat)
    }

    /// Neighbor lists for the unweighted walk structure: multi-edges
    /// collapse to one combinatorial neighbor, neighbors listed in order of
    /// first appearance in the edge list.
    pub fn neighbors(&self) -> (adj: Vec<Vec<usize>>)
        requires
            self.well_formed(),
        ensures
            lists_view(adj@) == neighbor_lists(self.n as nat, edge_pairs(self.edges@)),
    {
        let ghost es = edge_pairs(self.edges@);
        let mut adj: Vec<Vec<usize>> = Vec::new();
        let mut k: usize = 0;
        while k < self.n
            invariant
                0 <= k <= self.n,
                adj.len() == k,
                forall|i: int| 0 <= i < k ==> (#[trigger] adj@[i])@ == Seq::<usize>::empty(),
            decreases self.n - k,
        {
            adj.push(Vec::new());
            k = k + 1;
        }
        assert(lists_view(adj@) =~= neighbor_lists(self.n as nat, es.take(0)));
        let mut i: usize = 0;
        while i < self.edges.len()
            invariant
                0 <= i <= self.edges.len(),
                es == edge_pairs(self.edges@),
                pairs_in_range(es, self.n as nat),
                adj.len() == self.n,
                lists_view(adj@) == neighbor_lists(self.n as nat, es.take(i as int)),
            decreases self.edges.len() - i,
        {
            let (u, v) = self.edges[i].0;
            assert(es[i as int] == (u, v));
            let ghost a0 = lists_view(adj@);
            if !vec_contains(&adj[u], v) {
                push_at(&mut adj, u, v);
            }
            let ghost a1 = lists_view(adj@);
            assert(a1 =~= add_neighbor(a0, u as int, v));
            if !vec_contains(&adj[v], u) {
                push_at(&mut adj, v, u);
            }
            assert(lists_view(adj@) =~= add_neighbor(a1, v as int, u));
            assert(es.take(i + 1).drop_last() =~= es.take(i as int));
            i = i + 1;
        }
        assert(es.take(self.edges.len() as int) =~= es);
        adj
    }
}

/// Appends `v` to the list at position `u`.
pub fn push_at(lists: &mut Vec<Vec<usize>>, u: usize, v: usize)
    requires
        u < old(lists).len(),
    ensures
        final(lists).len() == old(lists).len(),
        final(lists)@[u as int]@ == old(lists)@[u as int]@.push(v),
        forall|i: int| 0 <= i < old(lists).len() && i != u ==> final(lists)@[i] == old(lists)@[i],
{
    lists[u].push(v);
}


/// The pairs of clique expansion that member `i` opens: `members[i]` with
/// each later member, as normalized edges, in member order.
pub open spec fn clique_row(members: Seq<usize>, i: int) -> Seq<(usize, usize)> {
    members.subrange(i + 1, members.len() as int).map_values(|x: usize| spec_edge_key(members[i], x))
}

/// The rows of the first `i` members, one after another.
pub open spec fn clique_rows(members: Seq<usize>, i: nat) -> Seq<(usize, usize)>
    decreases i,
{
    if i == 0 {
        Seq::empty()
    } else {
        clique_rows(members, (i - 1) as nat) + clique_row(members, i - 1)
    }
}

/// The vertex pairs that clique expansion links for one hyperedge: every
/// pair of positions i < j of `members`, as the normalized edge of
/// `members[i]` and `members[j]`, row by row.
pub fn clique_pairs(members: &Vec<usize>) -> (pairs: Vec<(usize, usize)>)
    ensures
        pairs@ == clique_rows(members@, members.len() as nat),
        2 * (pairs.len() as int) == (members.len() as int) * ((members.len() as int) - 1),
        forall|a: int, b: int|
            0 <= a < b < members.len() ==> pairs@.contains(spec_edge_key(members@[a], members@[b])),
        forall|q: int| 0 <= q < pairs.len() ==> is_member_pair(members@, #[trigger] pairs@[q]),
{
    let k = members.len();
    let mut pairs: Vec<(usize, usize)> = Vec::new();
    let mut i: usize = 0;
    while i < k
        invariant
            0 <= i <= k,
            k == members.len(),
            pairs@ == clique_rows(members@, i as nat),
        decreases k - i,
    {
        let ghost before = pairs@;
        let mut j: usize = i + 1;
        while j < k
            invariant
                i < k,
                i + 1 <= j <= k,
                k == members.len(),
                pairs@ == before + members@.subrange(i + 1, j as int).map_values(
                    |x: usize| spec_edge_key(members@[i as int], x),
                ),
            decreases k - j,
        {
            let e = edge_key(members[i], members[j]);
            pairs.push(e);
            assert(members@.subrange(i + 1, j + 1) =~= members@.subrange(i + 1, j as int).push(
                members@[j as int],
            ));
            assert(pairs@ =~= before + members@.subrange(i + 1, j + 1).map_values(
                |x: usize| spec_edge_key(members@[i as int], x),
            ));
            j = j + 1;
        }
        assert(pairs@ =~= clique_rows(members@, (i + 1) as nat));
        i = i + 1;
    }
    proof {
        lemma_clique_pairs_link_every_pair(members@);
    }
    pairs
}


/// `p` is the edge between the members at two positions a < b.
pub open spec fn is_member_pair(members: Seq<usize>, p: (usize, usize)) -> bool {
    exists|a: int, b: int|
        0 <= a < b < members.len() && p == #[trigger] spec_edge_key(members[a], members[b])
}

proof fn lemma_clique_rows_len(members: Seq<usize>, i: nat)
    requires
        i <= members.len(),
    ensures
        2 * (clique_rows(members, i).len() as int) == (i as int) * (2 * (members.len() as int) - (
            i as int) - 1),
    decreases i,
{
    if i > 0 {
        lemma_clique_rows_len(members, (i - 1) as nat);
        let l = members.len() as int;
        let t = (i - 1) as int;
        let r = clique_rows(members, (i - 1) as nat).len() as int;
        assert(clique_row(members, t).len() == l - t - 1);
        assert(clique_rows(members, i).len() == r + clique_row(members, t).len());
        assert(t + 1 == i);
        let ii = i as int;
        let n2 = clique_rows(members, i).len() as int;
        assert(2 * n2 == ii * (2 * l - ii - 1)) by (nonlinear_arith)
            requires
                2 * r == t * (2 * l - t - 1),
                n2 == r + (l - t - 1),
                ii == t + 1,
        ;
    } else {
        let l = members.len() as int;
        assert(0 * (2 * l - 0 - 1) == 0) by (nonlinear_arith);
    }
}

proof fn lemma_clique_rows_prefix(members: Seq<usize>, a: nat, b: nat)
    requires
        a <= b <= members.len(),
    ensures
        clique_rows(members, a).len() <= clique_rows(members, b).len(),
        forall|q: int|
            0 <= q < clique_rows(members, a).len() ==> #[trigger] clique_rows(members, b)[q]
                == clique_rows(members, a)[q],
    decreases b - a,
{
    if a < b {
        lemma_clique_rows_prefix(members, a, (b - 1) as nat);
    }
}

proof fn lemma_clique_rows_sound(members: Seq<usize>, i: nat)
    requires
        i <= members.len(),
    ensures
        forall|q: int|
            0 <= q < clique_rows(members, i).len() ==> is_member_pair(
                members,
                #[trigger] clique_rows(members, i)[q],
            ),
    decreases i,
{
    if i > 0 {
        lemma_clique_rows_sound(members, (i - 1) as nat);
        let prev = clique_rows(members, (i - 1) as nat);
        let t = (i - 1) as int;
        let rows = clique_rows(members, i);
        assert forall|q: int| 0 <= q < rows.len() implies is_member_pair(members, #[trigger] rows[q]) by {
            if q < prev.len() {
                assert(rows[q] == prev[q]);
                assert(is_member_pair(members, prev[q]));
            } else {
                let j = t + 1 + (q - prev.len());
                assert(rows[q] == clique_row(members, t)[q - prev.len()]);
                assert(rows[q] == spec_edge_key(members[t], members[j]));
                assert(is_member_pair(members, rows[q]));
            }
        }
    }
}

/// Clique expansion links every pair of a hyperedge's members exactly as
/// a k-clique does: for members m, every entry is the edge between the
/// members at two positions a < b, every such pair of positions gives an
/// entry, and there are |m|(|m| − 1)/2 entries.
pub proof fn lemma_clique_pairs_link_every_pair(members: Seq<usize>)
    ensures
        2 * (clique_rows(members, members.len()).len() as int) == (members.len() as int) * ((
            members.len() as int) - 1),
        forall|a: int, b: int|
            0 <= a < b < members.len() ==> clique_rows(members, members.len()).contains(
                spec_edge_key(members[a], members[b]),
            ),
        forall|q: int|
            0 <= q < clique_rows(members, members.len()).len() ==> is_member_pair(
                members,
                #[trigger] clique_rows(members, members.len())[q],
            ),
{
    let l = members.len();
    lemma_clique_rows_len(members, l);
    lemma_clique_rows_sound(members, l);
    assert forall|a: int, b: int| 0 <= a < b < l implies clique_rows(members, l).contains(
        spec_edge_key(members[a], members[b]),
    ) by {
        let pre = clique_rows(members, a as nat);
        let q = pre.len() + (b - a - 1);
        assert(clique_rows(members, (a + 1) as nat)[q] == clique_row(members, a)[b - a - 1]);
        lemma_clique_rows_prefix(members, (a + 1) as nat, l);
        assert(clique_rows(members, l)[q] == spec_edge_key(members[a], members[b]));
    }
}

} // verus!
