//! Hyperedge construction for the sphere-discretization experiment: one
//! hyperedge per sample point, made of the point together with its chosen
//! neighbors (k nearest, or all within an epsilon ball).  Choosing the
//! neighbors needs the point coordinates and happens outside this crate;
//! here the neighbor lists become the hyperedge set shared by both
//! discretization schemes.

use vstd::prelude::*;
use crate::hypergraph::{Hypergraph, members_in_range};

verus! {

/// `s` is strictly increasing.
pub open spec fn strictly_increasing(s: Seq<usize>) -> bool {
    forall|i: int, j: int| 0 <= i < j < s.len() ==> s[i] < s[j]
}

/// `m` lists, in increasing order and once each, the vertex `v` and the
/// entries of `nbrs`.
pub open spec fn is_closed_neighborhood(m: Seq<usize>, nbrs: Seq<usize>, v: usize) -> bool {
    &&& strictly_increasing(m)
    &&& forall|x: usize| #[trigger] m.contains(x) <==> x == v || nbrs.contains(x)
}

/// Some entry of `nbrs` differs from `v`, so that `v` and its neighbors
/// make a hyperedge of at least two members.
pub open spec fn has_other(nbrs: Seq<usize>, v: usize) -> bool {
    exists|i: int| 0 <= i < nbrs.len() && #[trigger] nbrs[i] != v
}

/// Inserts `x` into the strictly increasing `m`, unless already present.
fn insert_sorted(m: &mut Vec<usize>, x: usize)
    requires
        strictly_increasing(old(m)@),
    ensures
        strictly_increasing(final(m)@),
        forall|y: usize| #[trigger] final(m)@.contains(y) <==> y == x || old(m)@.contains(y),
{
    let mut j: usize = 0;
    while j < m.len() && m[j] < x
        invariant
            0 <= j <= m.len(),
            forall|i: int| 0 <= i < j ==> m@[i] < x,
        decreases m.len() - j,
    {
        j = j + 1;
    }
    if j < m.len() && m[j] == x {
        return;
    }
    let ghost old_m = m@;
    m.insert(j, x);
    proof {
        assert forall|a: int, b: int| 0 <= a < b < m.len() implies m@[a] < m@[b] by {
            if a < j && b > j {
                assert(old_m[a] < x);
                assert(m@[b] == old_m[b - 1]);
                assert(x < old_m[j as int]);
                if b - 1 > j {
                    assert(old_m[j as int] < old_m[b - 1]);
                }
            } else if a == j && b > j {
                assert(m@[b] == old_m[b - 1]);
                if b - 1 > j {
                    assert(old_m[j as int] < old_m[b - 1]);
                }
            } else if a > j {
                assert(m@[a] == old_m[a - 1] && m@[b] == old_m[b - 1]);
            }
        }
        assert forall|y: usize| #[trigger] m@.contains(y) <==> y == x || old_m.contains(y) by {
            if m@.contains(y) {
                let k = m@.index_of(y);
                if k < j {
                    assert(old_m[k] == y);
                } else if k > j {
                    assert(old_m[k - 1] == y);
                }
            }
            if old_m.contains(y) {
                let k = old_m.index_of(y);
                if k < j {
                    assert(m@[k] == y);
                } else {
                    assert(m@[k + 1] == y);
                }
            }
            if y == x {
                assert(m@[j as int] == x);
            }
        }
    }
}

/// The members of the hyperedge around `v`: `v` together with `nbrs`,
/// sorted increasingly with repeats removed.
pub fn closed_neighborhood(nbrs: &Vec<usize>, v: usize) -> (m: Vec<usize>)
    ensures
        is_closed_neighborhood(m@, nbrs@, v),
{
    let mut m: Vec<usize> = Vec::new();
    m.push(v);
    proof {
        assert forall|x: usize| #[trigger] m@.contains(x) <==> x == v || nbrs@.take(0).contains(x) by {
            if m@.contains(x) {
                let k = m@.index_of(x);
                assert(m@[k] == v);
            }
            if x == v {
                assert(m@[0] == v);
            }
        }
    }
    let mut i: usize = 0;
    while i < nbrs.len()
        invariant
            0 <= i <= nbrs.len(),
            strictly_increasing(m@),
            forall|x: usize| #[trigger] m@.contains(x) <==> x == v || nbrs@.take(i as int).contains(x),
        decreases nbrs.len() - i,
    {
        let ghost before = m@;
        insert_sorted(&mut m, nbrs[i]);
        proof {
            assert forall|x: usize| #[trigger] m@.contains(x) <==> x == v || nbrs@.take(i + 1).contains(
                x,
            ) by {
                if nbrs@.take(i + 1).contains(x) && x != nbrs@[i as int] {
                    let k = nbrs@.take(i + 1).index_of(x);
                    assert(nbrs@.take(i as int)[k] == x);
                }
                if nbrs@.take(i as int).contains(x) {
                    let k = nbrs@.take(i as int).index_of(x);
                    assert(nbrs@.take(i + 1)[k] == x);
                }
                if x == nbrs@[i as int] {
                    assert(nbrs@.take(i + 1)[i as int] == x);
                }
            }
        }
        i = i + 1;
    }
    proof {
        assert(nbrs@.take(nbrs.len() as int) =~= nbrs@);
    }
    m
}

/// Two strictly increasing sequences with the same elements are equal: a
/// closed neighborhood is determined by `v` and its neighbors.
pub proof fn lemma_strictly_increasing_unique(a: Seq<usize>, b: Seq<usize>)
    requires
        strictly_increasing(a),
        strictly_increasing(b),
        forall|x: usize| #![trigger a.contains(x)] #![trigger b.contains(x)] a.contains(x) <==> b.contains(x),
    ensures
        a == b,
    decreases a.len() + b.len(),
{
    if a.len() == 0 || b.len() == 0 {
        if a.len() > 0 {
            assert(a.contains(a[0]));
        }
        if b.len() > 0 {
            assert(b.contains(b[0]));
        }
        assert(a =~= b);
    } else {
        let la = a.last();
        let lb = b.last();
        assert(a.contains(la));
        assert(b.contains(lb));
        assert(b.contains(la));
        assert(a.contains(lb));
        let ia = b.index_of(la);
        let ib = a.index_of(lb);
        if la < lb {
            assert(a[ib] == lb);
            assert(ib <= a.len() - 1);
        } else if lb < la {
            assert(b[ia] == la);
        }
        assert(la == lb);
        let a2 = a.drop_last();
        let b2 = b.drop_last();
        assert forall|x: usize| #![trigger a2.contains(x)] #![trigger b2.contains(x)] a2.contains(x) <==> b2.contains(x) by {
            if a2.contains(x) {
                let k = a2.index_of(x);
                assert(a[k] == x && x < la);
                assert(a.contains(x));
                assert(b.contains(x));
                let kb = b.index_of(x);
                assert(kb != b.len() - 1);
                assert(b2[kb] == x);
            }
            if b2.contains(x) {
                let k = b2.index_of(x);
                assert(b[k] == x && x < lb);
                assert(b.contains(x));
                assert(a.contains(x));
                let ka = a.index_of(x);
                assert(ka != a.len() - 1);
                assert(a2[ka] == x);
            }
        }
        lemma_strictly_increasing_unique(a2, b2);
        assert(a =~= a2.push(la));
        assert(b =~= b2.push(lb));
    }
}

/// Builds the hypergraph with one hyperedge per vertex `v` of
/// `neighborhoods` (in increasing `v`): `v` with its neighbors, sorted and
/// without repeats, all with weight `weight`; a vertex whose neighbor list
/// names no other vertex contributes no hyperedge.
pub fn hypergraph_from_neighborhoods<W: Copy>(neighborhoods: &Vec<Vec<usize>>, weight: W) -> (h: Hypergraph<W>)
    requires
        forall|v: int|
            0 <= v < neighborhoods.len() ==> members_in_range(
                #[trigger] neighborhoods@[v]@,
                neighborhoods.len() as nat,
            ),
    ensures
        h.n_vertices == neighborhoods.len(),
        exists|origin: Seq<usize>|
            #![trigger origin.len()]
            origin.len() == h.hyperedges.len() && strictly_increasing(origin) && (forall|i: int|
                0 <= i < origin.len() ==> {
                    &&& origin[i] < neighborhoods.len()
                    &&& is_closed_neighborhood(
                        (#[trigger] h.hyperedges@[i]).0@,
                        neighborhoods@[origin[i] as int]@,
                        origin[i],
                    )
                    &&& h.hyperedges@[i].0.len() >= 2
                    &&& h.hyperedges@[i].1 == weight
                }) && (forall|v: usize|
                v < neighborhoods.len() && has_other(#[trigger] neighborhoods@[v as int]@, v)
                    ==> origin.contains(v)),
{
    let n = neighborhoods.len();
    let mut h: Hypergraph<W> = Hypergraph::new(n);
    let ghost mut origin: Seq<usize> = Seq::empty();
    let mut v: usize = 0;
    while v < n
        invariant
            0 <= v <= n,
            n == neighborhoods.len(),
            h.n_vertices == n,
            forall|u: int|
                0 <= u < n ==> members_in_range(#[trigger] neighborhoods@[u]@, n as nat),
            origin.len() == h.hyperedges.len(),
            strictly_increasing(origin),
            forall|i: int| 0 <= i < origin.len() ==> #[trigger] origin[i] < v,
            forall|i: int|
                0 <= i < origin.len() ==> {
                    &&& origin[i] < n
                    &&& is_closed_neighborhood(
                        (#[trigger] h.hyperedges@[i]).0@,
                        neighborhoods@[origin[i] as int]@,
                        origin[i],
                    )
                    &&& h.hyperedges@[i].0.len() >= 2
                    &&& h.hyperedges@[i].1 == weight
                },
            forall|u: usize|
                u < v && has_other(#[trigger] neighborhoods@[u as int]@, u) ==> origin.contains(u),
        decreases n - v,
    {
        let members = closed_neighborhood(&neighborhoods[v], v);
        let ghost nb = neighborhoods@[v as int]@;
        proof {
            if has_other(nb, v) {
                let i = choose|i: int| 0 <= i < nb.len() && #[trigger] nb[i] != v;
                assert(members@.contains(nb[i]));
                assert(members@.contains(v));
                let p = members@.index_of(nb[i]);
                let q = members@.index_of(v);
                assert(p != q);
            }
        }
        if members.len() >= 2 {
            proof {
                assert forall|i: int| 0 <= i < members.len() implies #[trigger] members@[i] < n by {
                    assert(members@.contains(members@[i]));
                    if members@[i] != v {
                        assert(nb.contains(members@[i]));
                        let k = nb.index_of(members@[i]);
                        assert(nb[k] < n);
                    }
                }
            }
            let ghost old_h = h.hyperedges@;
            let ghost old_origin = origin;
            h.add_hyperedge(members, weight);
            proof {
                origin = origin.push(v);
                assert forall|i: int|
                    0 <= i < origin.len() implies {
                        &&& origin[i] < n
                        &&& is_closed_neighborhood(
                            (#[trigger] h.hyperedges@[i]).0@,
                            neighborhoods@[origin[i] as int]@,
                            origin[i],
                        )
                        &&& h.hyperedges@[i].0.len() >= 2
                        &&& h.hyperedges@[i].1 == weight
                    } by {
                    if i < old_origin.len() {
                        assert(h.hyperedges@[i] == old_h[i]);
                        assert(origin[i] == old_origin[i]);
                    }
                }
                assert forall|u: usize|
                    u < v + 1 && has_other(#[trigger] neighborhoods@[u as int]@, u) implies origin.contains(u) by {
                    if u < v {
                        let k = old_origin.index_of(u);
                        assert(origin[k] == u);
                    } else {
                        assert(origin[origin.len() - 1] == v);
                    }
                }
                assert forall|a: int, b: int| 0 <= a < b < origin.len() implies origin[a] < origin[b] by {
                    if b == origin.len() - 1 {
                        assert(old_origin[a] < v);
                    }
                }
            }
        } else {
            proof {
                assert(!has_other(nb, v));
            }
        }
        v = v + 1;
    }
    h
}


/// A vertex with `k` distinct neighbors, itself not among them, gets a
/// hyperedge of exactly `k + 1` members: the kNN construction makes every
/// hyperedge the same size.
pub proof fn lemma_closed_neighborhood_size(m: Seq<usize>, nbrs: Seq<usize>, v: usize)
    requires
        is_closed_neighborhood(m, nbrs, v),
        nbrs.no_duplicates(),
        !nbrs.contains(v),
    ensures
        m.len() == nbrs.len() + 1,
{
    broadcast use vstd::set::group_set_axioms, vstd::seq_lib::group_seq_properties;

    assert(m.no_duplicates()) by {
        assert forall|i: int, j: int| 0 <= i < m.len() && 0 <= j < m.len() && i != j implies m[i]
            != m[j] by {
            if i < j {
                assert(m[i] < m[j]);
            } else {
                assert(m[j] < m[i]);
            }
        }
    }
    m.unique_seq_to_set();
    nbrs.unique_seq_to_set();
    assert(m.to_set() =~= nbrs.to_set().insert(v)) by {
        assert forall|x: usize| m.to_set().contains(x) <==> nbrs.to_set().insert(v).contains(x) by {
            assert(m.contains(x) <==> x == v || nbrs.contains(x));
        }
    }
}

} // verus!
