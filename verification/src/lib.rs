//! Combinatorial core of a discrete-quantum-gravity toolkit: simplicial
//! complexes for Regge calculus, graph adjacency, non-backtracking walks,
//! random regular graphs and hypergraph construction.

pub mod regge;
pub mod hypergraph;
pub mod nonbacktracking;
pub mod continuum_limit;
pub mod hypergraph_continuum_limit;
pub mod cheeger;
