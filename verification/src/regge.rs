//! Combinatorics of a 3D simplicial complex for Regge calculus: 4-vertex
//! hyperedges are taken literally as tetrahedra (3-simplices); their edges
//! are the hinges of the complex, and each hinge records the tetrahedra
//! that meet at it.  Edge lengths and everything computed from them
//! (volumes, dihedral and deficit angles, the Regge action) live outside
//! this crate; this module fixes the connectivity they are evaluated on.

use vstd::prelude::*;
use std::collections::BTreeMap;

verus! {

pub type VertexId = usize;

pub type Edge = (VertexId, VertexId);

/// The normalized form (smaller endpoint first) of the edge between `a` and `b`.
pub open spec fn spec_edge_key(a: VertexId, b: VertexId) -> Edge {
    if a < b {
        (a, b)
    } else {
        (b, a)
    }
}

/// Normalizes an edge so that its smaller endpoint comes first.
pub fn edge_key(a: VertexId, b: VertexId) -> (e: Edge)
    ensures
        e == spec_edge_key(a, b),
        e.0 <= e.1,
        (e.0 == a && e.1 == b) || (e.0 == b && e.1 == a),
{
    if a < b {
        (a, b)
    } else {
        (b, a)
    }
}

/// A 3-simplex (tetrahedron): 4 vertices, no embedding assumed.
#[derive(Debug, Clone, Copy)]
pub struct Tetrahedron {
    pub v: [VertexId; 4],
}

/// The six edges of the tetrahedron with vertices `v`, in the fixed order
/// 01, 02, 03, 12, 13, 23, each normalized.
pub open spec fn tet_edge_seq(v: [VertexId; 4]) -> Seq<Edge> {
    seq![
        spec_edge_key(v@[0], v@[1]),
        spec_edge_key(v@[0], v@[2]),
        spec_edge_key(v@[0], v@[3]),
        spec_edge_key(v@[1], v@[2]),
        spec_edge_key(v@[1], v@[3]),
        spec_edge_key(v@[2], v@[3]),
    ]
}

/// `e` is the edge between vertices `a` and `b`, smaller endpoint first.
pub open spec fn joins(e: Edge, a: VertexId, b: VertexId) -> bool {
    &&& e.0 <= e.1
    &&& (e.0 == a && e.1 == b) || (e.0 == b && e.1 == a)
}

/// The six edges of a tetrahedron join its vertices pairwise: edge 0 joins
/// vertices 0 and 1, then 0–2, 0–3, 1–2, 1–3 and 2–3, each with the
/// smaller vertex id first.
pub proof fn lemma_tet_edges_join_its_vertices(v: [VertexId; 4])
    ensures
        tet_edge_seq(v).len() == 6,
        joins(tet_edge_seq(v)[0], v[0], v[1]),
        joins(tet_edge_seq(v)[1], v[0], v[2]),
        joins(tet_edge_seq(v)[2], v[0], v[3]),
        joins(tet_edge_seq(v)[3], v[1], v[2]),
        joins(tet_edge_seq(v)[4], v[1], v[3]),
        joins(tet_edge_seq(v)[5], v[2], v[3]),
{
}

impl Tetrahedron {
    /// The six edges of this tetrahedron (pairs 01, 02, 03, 12, 13, 23),
    /// each with its smaller endpoint first.
    pub fn edges(&self) -> (es: [Edge; 6])
        ensures
            es@ == tet_edge_seq(self.v),
            joins(es[0], self.v[0], self.v[1]),
            joins(es[1], self.v[0], self.v[2]),
            joins(es[2], self.v[0], self.v[3]),
            joins(es[3], self.v[1], self.v[2]),
            joins(es[4], self.v[1], self.v[3]),
            joins(es[5], self.v[2], self.v[3]),
    {
        let v = self.v;
        let es = [
            edge_key(v[0], v[1]),
            edge_key(v[0], v[2]),
            edge_key(v[0], v[3]),
            edge_key(v[1], v[2]),
            edge_key(v[1], v[3]),
            edge_key(v[2], v[3]),
        ];
        assert(es@ =~= tet_edge_seq(self.v));
        es
    }
}

/// Every (edge, tetrahedron index) incidence of the tetrahedra `tets`,
/// tetrahedron by tetrahedron, each contributing its six edges in order.
pub open spec fn incidences(tets: Seq<[VertexId; 4]>) -> Seq<(Edge, usize)>
    decreases tets.len(),
{
    if tets.len() == 0 {
        Seq::empty()
    } else {
        let i = (tets.len() - 1) as usize;
        incidences(tets.drop_last()) + tet_edge_seq(tets.last()).map_values(|e: Edge| (e, i))
    }
}

/// The tetrahedron indices recorded against edge `e` in the incidence list
/// `incs`, in list order (an index appears once per incidence).
pub open spec fn tets_at(incs: Seq<(Edge, usize)>, e: Edge) -> Seq<usize>
    decreases incs.len(),
{
    if incs.len() == 0 {
        Seq::empty()
    } else if incs.last().0 == e {
        tets_at(incs.drop_last(), e).push(incs.last().1)
    } else {
        tets_at(incs.drop_last(), e)
    }
}

/// Lexicographic order on edges (first endpoint, then second).
pub open spec fn edge_lt(a: Edge, b: Edge) -> bool {
    a.0 < b.0 || (a.0 == b.0 && a.1 < b.1)
}

/// `s` is strictly increasing in the lexicographic edge order.
pub open spec fn strictly_sorted(s: Seq<Edge>) -> bool {
    forall|i: int, j: int| 0 <= i < j < s.len() ==> edge_lt(s[i], s[j])
}

/// The simplicial complex: a set of tetrahedra plus the derived edge set.
pub struct SimplicialComplex {
    pub tetrahedra: Vec<Tetrahedron>,
    pub edges: Vec<Edge>,
    /// edge -> indices into `tetrahedra` of every tet containing that edge.
    pub edge_to_tets: BTreeMap<Edge, Vec<usize>>,
}

/// The vertex arrays of a sequence of tetrahedra.
pub open spec fn tet_vertices(ts: Seq<Tetrahedron>) -> Seq<[VertexId; 4]> {
    ts.map_values(|t: Tetrahedron| t.v)
}

/// The complex's edge list and incidence map are exactly those derived from
/// its tetrahedra: edges sorted without repetition, each edge mapped to the
/// indices of the tetrahedra that contain it.
pub open spec fn derived_from(c: SimplicialComplex, tets: Seq<[VertexId; 4]>) -> bool {
    let incs = incidences(tets);
    &&& tet_vertices(c.tetrahedra@) == tets
    &&& strictly_sorted(c.edges@)
    &&& forall|e: Edge| #[trigger] c.edges@.contains(e) <==> tets_at(incs, e).len() > 0
    &&& forall|e: Edge| #[trigger] c.edge_to_tets@.contains_key(e) <==> c.edges@.contains(e)
    &&& forall|e: Edge| #[trigger]
        c.edge_to_tets@.contains_key(e) ==> c.edge_to_tets@[e]@ == tets_at(incs, e)
}

/// Edges (pairs of vertex ids) are totally ordered in the way the ordered
/// map of the complex relies on.
pub open spec fn edge_keys_ordered() -> bool {
    vstd::laws_cmp::obeys_cmp::<(usize, usize)>()
}

proof fn lemma_tuple_key_order()
    ensures
        edge_keys_ordered(),
{
    broadcast use vstd::laws_cmp::group_laws_cmp;

}

proof fn lemma_tets_at_push(incs: Seq<(Edge, usize)>, x: (Edge, usize), e: Edge)
    ensures
        tets_at(incs.push(x), e) == if x.0 == e {
            tets_at(incs, e).push(x.1)
        } else {
            tets_at(incs, e)
        },
{
    assert(incs.push(x).drop_last() =~= incs);
}

fn edge_lt_exec(a: Edge, b: Edge) -> (r: bool)
    ensures
        r == edge_lt(a, b),
{
    a.0 < b.0 || (a.0 == b.0 && a.1 < b.1)
}

impl SimplicialComplex {
    /// Builds the complex from its tetrahedra: the edge list is the sorted
    /// set of all tetrahedron edges, and each edge is mapped to the indices
    /// of the tetrahedra containing it (in increasing order, an index
    /// repeated if a degenerate tetrahedron lists the edge twice).
    pub fn from_tetrahedra(tets: Vec<[VertexId; 4]>) -> (c: Self)
        ensures
            derived_from(c, tets@),
    {
        let ghost all = tets@;
        let mut tetrahedra: Vec<Tetrahedron> = Vec::new();
        let mut edges: Vec<Edge> = Vec::new();
        let mut lists: Vec<Vec<usize>> = Vec::new();
        let n = tets.len();
        let mut ti: usize = 0;
        while ti < n
            invariant
                n == tets.len(),
                all == tets@,
                0 <= ti <= n,
                tet_vertices(tetrahedra@) == all.take(ti as int),
                strictly_sorted(edges@),
                lists.len() == edges.len(),
                forall|e: Edge| #[trigger]
                    edges@.contains(e) <==> tets_at(incidences(all.take(ti as int)), e).len() > 0,
                forall|j: int|
                    0 <= j < edges.len() ==> #[trigger] lists@[j]@ == tets_at(
                        incidences(all.take(ti as int)),
                        edges@[j],
                    ),
            decreases n - ti,
        {
            let v = tets[ti];
            let t = Tetrahedron { v };
            let es = t.edges();
            let ghost prefix = incidences(all.take(ti as int));
            let mut k: usize = 0;
            while k < 6
                invariant
                    n == tets.len(),
                    all == tets@,
                    ti < n,
                    v == all[ti as int],
                    es@ == tet_edge_seq(v),
                    prefix == incidences(all.take(ti as int)),
                    0 <= k <= 6,
                    strictly_sorted(edges@),
                    lists.len() == edges.len(),
                    forall|e: Edge| #[trigger]
                        edges@.contains(e) <==> tets_at(
                            prefix + es@.take(k as int).map_values(|e: Edge| (e, ti)),
                            e,
                        ).len() > 0,
                    forall|j: int|
                        0 <= j < edges.len() ==> #[trigger] lists@[j]@ == tets_at(
                            prefix + es@.take(k as int).map_values(|e: Edge| (e, ti)),
                            edges@[j],
                        ),
                decreases 6 - k,
            {
                let e = es[k];
                let ghost before = prefix + es@.take(k as int).map_values(|e: Edge| (e, ti));
                let ghost after = prefix + es@.take(k + 1).map_values(|e: Edge| (e, ti));
                assert(after =~= before.push((e, ti)));
                proof {
                    assert forall|x: Edge| true implies tets_at(after, x) == if e == x {
                        tets_at(before, x).push(ti)
                    } else {
                        tets_at(before, x)
                    } by {
                        lemma_tets_at_push(before, (e, ti), x);
                    }
                }
                let mut j: usize = 0;
                while j < edges.len() && edge_lt_exec(edges[j], e)
                    invariant
                        0 <= j <= edges.len(),
                        forall|i: int| 0 <= i < j ==> edge_lt(#[trigger] edges@[i], e),
                    decreases edges.len() - j,
                {
                    j = j + 1;
                }
                if j < edges.len() && edges[j].0 == e.0 && edges[j].1 == e.1 {
                    lists[j].push(ti);
                    proof {
                        assert forall|i: int| 0 <= i < edges.len() implies #[trigger] lists@[i]@
                            == tets_at(after, edges@[i]) by {
                            if i != j {
                                assert(edges@[i] != e) by {
                                    if i < j {
                                        assert(edge_lt(edges@[i], edges@[j as int]));
                                    } else {
                                        assert(edge_lt(edges@[j as int], edges@[i]));
                                    }
                                }
                            }
                        }
                        assert forall|x: Edge| #[trigger]
                            edges@.contains(x) <==> tets_at(after, x).len() > 0 by {
                            if x == e {
                                assert(edges@[j as int] == e);
                            }
                        }
                    }
                } else {
                    let ghost old_edges = edges@;
                    let ghost old_lists = lists@;
                    assert(forall|x: Edge| #[trigger]
                        old_edges.contains(x) <==> tets_at(before, x).len() > 0);
                    proof {
                        assert(!old_edges.contains(e)) by {
                            if old_edges.contains(e) {
                                let i = old_edges.index_of(e);
                                if i < j {
                                    assert(edge_lt(old_edges[i], e));
                                } else if i > j {
                                    assert(!edge_lt(old_edges[j as int], e));
                                    assert(edge_lt(old_edges[j as int], old_edges[i]));
                                }
                            }
                        }
                        assert(tets_at(before, e).len() == 0);
                    }
                    edges.insert(j, e);
                    let mut l: Vec<usize> = Vec::new();
                    l.push(ti);
                    lists.insert(j, l);
                    proof {
                        assert(tets_at(before, e) =~= Seq::<usize>::empty());
                        assert forall|a: int, b: int|
                            0 <= a < b < edges.len() implies edge_lt(edges@[a], edges@[b]) by {
                            if a < j && b > j {
                                assert(edge_lt(old_edges[a], e));
                                assert(!edge_lt(old_edges[j as int], e));
                            } else if a == j && b > j {
                                assert(!edge_lt(old_edges[j as int], e));
                                assert(edges@[b] == old_edges[b - 1]);
                                if b - 1 > j {
                                    assert(edge_lt(old_edges[j as int], old_edges[b - 1]));
                                }
                            }
                        }
                        assert forall|i: int| 0 <= i < edges.len() implies #[trigger] lists@[i]@
                            == tets_at(after, edges@[i]) by {
                            if i < j {
                                assert(edges@[i] == old_edges[i]);
                                assert(lists@[i] == old_lists[i]);
                            } else if i > j {
                                assert(edges@[i] == old_edges[i - 1]);
                                assert(lists@[i] == old_lists[i - 1]);
                                assert(old_edges.contains(old_edges[i - 1]));
                            }
                        }
                        assert forall|x: Edge| #[trigger]
                            edges@.contains(x) <==> tets_at(after, x).len() > 0 by {
                            if x == e {
                                assert(edges@[j as int] == e);
                                assert(tets_at(after, x).len() > 0);
                            } else if edges@.contains(x) {
                                let i = edges@.index_of(x);
                                if i < j {
                                    assert(old_edges[i] == x);
                                } else {
                                    assert(old_edges[i - 1] == x);
                                }
                                assert(old_edges.contains(x));
                                assert(tets_at(before, x).len() > 0);
                            } else if old_edges.contains(x) {
                                let i = old_edges.index_of(x);
                                if i < j {
                                    assert(edges@[i] == x);
                                } else {
                                    assert(edges@[i + 1] == x);
                                }
                            }
                        }
                    }
                }
                k = k + 1;
            }
            proof {
                let nxt = all.take(ti + 1);
                assert(nxt.drop_last() =~= all.take(ti as int));
                assert(es@.take(6) =~= es@);
                assert(incidences(nxt) == prefix + es@.take(6).map_values(|e: Edge| (e, ti)));
            }
            tetrahedra.push(t);
            proof {
                assert(tet_vertices(tetrahedra@) =~= all.take(ti + 1));
            }
            ti = ti + 1;
        }
        proof {
            assert(all.take(n as int) =~= all);
        }
        let ghost incs = incidences(all);
        let mut edge_to_tets: BTreeMap<Edge, Vec<usize>> = BTreeMap::new();
        proof {
            lemma_tuple_key_order();
        }
        let mut i: usize = lists.len();
        while i > 0
            invariant
                i <= lists.len(),
                lists.len() <= edges.len(),
                lists.len() == i,
                edge_keys_ordered(),
                strictly_sorted(edges@),
                forall|j: int|
                    0 <= j < i ==> #[trigger] lists@[j]@ == tets_at(incs, edges@[j]),
                forall|e: Edge| #[trigger]
                    edge_to_tets@.contains_key(e) <==> exists|j: int|
                        i <= j < edges.len() && edges@[j] == e,
                forall|j: int|
                    i <= j < edges.len() ==> #[trigger] edge_to_tets@[edges@[j]]@ == tets_at(
                        incs,
                        edges@[j],
                    ),
            decreases i,
        {
            let l = lists.pop().unwrap();
            let e = edges[i - 1];
            edge_to_tets.insert(e, l);
            i = i - 1;
            proof {
                assert forall|j: int|
                    i <= j < edges.len() implies #[trigger] edge_to_tets@[edges@[j]]@ == tets_at(
                    incs,
                    edges@[j],
                ) by {
                    if j != i {
                        assert(edge_lt(edges@[i as int], edges@[j]));
                    }
                }
            }
        }
        let c = SimplicialComplex { tetrahedra, edges, edge_to_tets };
        proof {
            assert forall|e: Edge| #[trigger]
                c.edge_to_tets@.contains_key(e) <==> c.edges@.contains(e) by {
                if c.edges@.contains(e) {
                    let j = c.edges@.index_of(e);
                    assert(c.edges@[j] == e);
                }
            }
            assert forall|e: Edge| #[trigger]
                c.edge_to_tets@.contains_key(e) implies c.edge_to_tets@[e]@ == tets_at(incs, e) by {
                let j = choose|j: int| 0 <= j < c.edges.len() && c.edges@[j] == e;
            }
        }
        c
    }

    /// The number of tetrahedra recorded against edge `e` (0 for an edge not
    /// in the complex). Interior hinges are those with multiplicity >= 3.
    pub fn hinge_multiplicity(&self, e: &Edge) -> (m: usize)
        ensures
            m == if self.edge_to_tets@.contains_key(*e) {
                self.edge_to_tets@[*e]@.len()
            } else {
                0
            },
    {
        proof {
            lemma_tuple_key_order();
        }
        match self.edge_to_tets.get(e) {
            Some(v) => v.len(),
            None => 0,
        }
    }
}

/// Sum of the incidence counts of the edges in `s`.
pub open spec fn multiplicity_sum(incs: Seq<(Edge, usize)>, s: Seq<Edge>) -> int
    decreases s.len(),
{
    if s.len() == 0 {
        0
    } else {
        multiplicity_sum(incs, s.drop_last()) + tets_at(incs, s.last()).len()
    }
}

proof fn lemma_multiplicity_sum_push(incs: Seq<(Edge, usize)>, x: (Edge, usize), s: Seq<Edge>)
    requires
        s.no_duplicates(),
    ensures
        multiplicity_sum(incs.push(x), s) == multiplicity_sum(incs, s) + if s.contains(x.0) {
            1int
        } else {
            0int
        },
    decreases s.len(),
{
    if s.len() > 0 {
        let t = s.drop_last();
        assert(t.no_duplicates());
        lemma_multiplicity_sum_push(incs, x, t);
        lemma_tets_at_push(incs, x, s.last());
        if x.0 == s.last() {
            assert(!t.contains(x.0));
        }
        assert(s.contains(x.0) <==> t.contains(x.0) || s.last() == x.0) by {
            if s.contains(x.0) && s.last() != x.0 {
                let k = s.index_of(x.0);
                assert(t[k] == x.0);
            }
            if t.contains(x.0) {
                let k = t.index_of(x.0);
                assert(s[k] == x.0);
            }
        }
    }
}

proof fn lemma_multiplicity_sum_total(incs: Seq<(Edge, usize)>, s: Seq<Edge>)
    requires
        s.no_duplicates(),
        forall|i: int| 0 <= i < incs.len() ==> s.contains(#[trigger] incs[i].0),
    ensures
        multiplicity_sum(incs, s) == incs.len(),
    decreases incs.len(),
{
    if incs.len() == 0 {
        lemma_multiplicity_sum_empty(s);
        assert(incs =~= Seq::<(Edge, usize)>::empty());
    } else {
        let p = incs.drop_last();
        assert forall|i: int| 0 <= i < p.len() implies s.contains(#[trigger] p[i].0) by {
            assert(incs[i] == p[i]);
        }
        lemma_multiplicity_sum_total(p, s);
        assert(p.push(incs.last()) =~= incs);
        assert(s.contains(incs[incs.len() - 1].0));
        lemma_multiplicity_sum_push(p, incs.last(), s);
    }
}

proof fn lemma_multiplicity_sum_empty(s: Seq<Edge>)
    ensures
        multiplicity_sum(Seq::empty(), s) == 0,
    decreases s.len(),
{
    if s.len() > 0 {
        lemma_multiplicity_sum_empty(s.drop_last());
    }
}

proof fn lemma_tets_at_nonempty(incs: Seq<(Edge, usize)>, i: int)
    requires
        0 <= i < incs.len(),
    ensures
        tets_at(incs, incs[i].0).len() > 0,
    decreases incs.len(),
{
    if i < incs.len() - 1 {
        lemma_tets_at_nonempty(incs.drop_last(), i);
        assert(incs.drop_last()[i] == incs[i]);
    }
}

proof fn lemma_incidences_len(tets: Seq<[VertexId; 4]>)
    ensures
        incidences(tets).len() == 6 * tets.len(),
    decreases tets.len(),
{
    if tets.len() > 0 {
        lemma_incidences_len(tets.drop_last());
    }
}

/// Every tetrahedron contributes exactly six edge incidences: summed over
/// the edge set of the complex, the hinge multiplicities add up to six
/// times the number of tetrahedra.
pub proof fn lemma_hinge_multiplicities_sum(tets: Seq<[VertexId; 4]>, edges: Seq<Edge>)
    requires
        edges.no_duplicates(),
        forall|e: Edge| #[trigger] edges.contains(e) <==> tets_at(incidences(tets), e).len() > 0,
    ensures
        multiplicity_sum(incidences(tets), edges) == 6 * tets.len(),
{
    let incs = incidences(tets);
    assert forall|i: int| 0 <= i < incs.len() implies edges.contains(#[trigger] incs[i].0) by {
        lemma_tets_at_nonempty(incs, i);
    }
    lemma_multiplicity_sum_total(incs, edges);
    lemma_incidences_len(tets);
}

/// A strictly sorted edge list repeats no edge.
pub proof fn lemma_strictly_sorted_no_duplicates(s: Seq<Edge>)
    requires
        strictly_sorted(s),
    ensures
        s.no_duplicates(),
{
    assert forall|i: int, j: int| 0 <= i < s.len() && 0 <= j < s.len() && i != j implies s[i] != s[j] by {
        if i < j {
            assert(edge_lt(s[i], s[j]));
        } else {
            assert(edge_lt(s[j], s[i]));
        }
    }
}

proof fn lemma_tets_at_concat_map(incs: Seq<(Edge, usize)>, es: Seq<Edge>, t: usize, e: Edge)
    ensures
        tets_at(incs + es.map_values(|x: Edge| (x, t)), e) == tets_at(incs, e) + Seq::new(
            count_edge(es, e),
            |k: int| t,
        ),
    decreases es.len(),
{
    let full = incs + es.map_values(|x: Edge| (x, t));
    if es.len() == 0 {
        assert(full =~= incs);
        assert(Seq::new(0, |k: int| t) =~= Seq::<usize>::empty());
        assert(tets_at(incs, e) + Seq::<usize>::empty() =~= tets_at(incs, e));
    } else {
        let es2 = es.drop_last();
        lemma_tets_at_concat_map(incs, es2, t, e);
        let part = incs + es2.map_values(|x: Edge| (x, t));
        assert(full =~= part.push((es.last(), t)));
        lemma_tets_at_push(part, (es.last(), t), e);
        if es.last() == e {
            assert(Seq::new(count_edge(es, e), |k: int| t) =~= Seq::new(count_edge(es2, e), |k: int| t).push(t));
            assert(tets_at(incs, e) + Seq::new(count_edge(es2, e), |k: int| t).push(t) =~= (tets_at(
                incs,
                e,
            ) + Seq::new(count_edge(es2, e), |k: int| t)).push(t));
        }
    }
}

/// Number of occurrences of `e` in `es`.
pub open spec fn count_edge(es: Seq<Edge>, e: Edge) -> nat
    decreases es.len(),
{
    if es.len() == 0 {
        0
    } else {
        count_edge(es.drop_last(), e) + if es.last() == e {
            1nat
        } else {
            0nat
        }
    }
}

proof fn lemma_count_edge_contains(es: Seq<Edge>, e: Edge)
    ensures
        es.contains(e) <==> count_edge(es, e) > 0,
    decreases es.len(),
{
    if es.len() > 0 {
        lemma_count_edge_contains(es.drop_last(), e);
        if es.contains(e) && es.last() != e {
            let k = es.index_of(e);
            assert(es.drop_last()[k] == e);
        }
        if es.drop_last().contains(e) {
            let k = es.drop_last().index_of(e);
            assert(es[k] == e);
        }
    }
}

/// The tetrahedra recorded against an edge are exactly those having it
/// among their six edges, listed in increasing order of index.
pub proof fn lemma_tets_at_exact(tets: Seq<[VertexId; 4]>, e: Edge)
    requires
        tets.len() <= usize::MAX,
    ensures
        forall|t: usize| #[trigger]
            tets_at(incidences(tets), e).contains(t) <==> t < tets.len() && tet_edge_seq(
                tets[t as int],
            ).contains(e),
        forall|i: int, j: int|
            0 <= i < j < tets_at(incidences(tets), e).len() ==> tets_at(incidences(tets), e)[i]
                <= tets_at(incidences(tets), e)[j],
        forall|i: int|
            0 <= i < tets_at(incidences(tets), e).len() ==> tets_at(incidences(tets), e)[i] < tets.len(),
    decreases tets.len(),
{
    if tets.len() > 0 {
        let prev = tets.drop_last();
        lemma_tets_at_exact(prev, e);
        let last = (tets.len() - 1) as usize;
        let es = tet_edge_seq(tets.last());
        lemma_tets_at_concat_map(incidences(prev), es, last, e);
        lemma_count_edge_contains(es, e);
        let a = tets_at(incidences(prev), e);
        let b = Seq::new(count_edge(es, e), |k: int| last);
        assert(tets_at(incidences(tets), e) == a + b);
        assert forall|t: usize| #[trigger]
            (a + b).contains(t) <==> t < tets.len() && tet_edge_seq(tets[t as int]).contains(e) by {
            if (a + b).contains(t) {
                let k = (a + b).index_of(t);
                if k < a.len() {
                    assert(a.contains(t));
                    assert(prev[t as int] == tets[t as int]);
                } else {
                    assert(b[k - a.len()] == last);
                }
            }
            if t < tets.len() && tet_edge_seq(tets[t as int]).contains(e) {
                if t < last {
                    assert(prev[t as int] == tets[t as int]);
                    assert(a.contains(t));
                    let k = a.index_of(t);
                    assert((a + b)[k] == t);
                } else {
                    assert(t == last);
                    assert(tets[t as int] == tets.last());
                    assert(count_edge(es, e) > 0);
                    assert(b[0] == last);
                    assert((a + b)[a.len() as int] == t);
                }
            }
        }
        assert forall|i: int| 0 <= i < (a + b).len() implies (a + b)[i] < tets.len() by {
            if i < a.len() {
                assert(a[i] < prev.len());
            }
        }
        assert forall|i: int, j: int| 0 <= i < j < (a + b).len() implies (a + b)[i] <= (a + b)[j] by {
            if j >= a.len() {
                assert((a + b)[j] == b[j - a.len()]);
                if i < a.len() {
                    assert(a[i] < prev.len());
                    assert((a + b)[i] == a[i]);
                } else {
                    assert((a + b)[i] == b[i - a.len()]);
                }
            } else {
                assert((a + b)[i] == a[i] && (a + b)[j] == a[j]);
            }
        }
    }
}

} // verus!
