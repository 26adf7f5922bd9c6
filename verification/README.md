# spectral_dqg

Combinatorial core of a spectral toolkit for discrete quantum gravity,
written in Verus: every function in `src/` carries a contract that the
verifier proves.

- `src/regge.rs`: simplicial complexes built from tetrahedra — sorted edge
  set and hinge incidences, with the multiplicity laws.
- `src/hypergraph.rs`: hypergraphs and weighted graphs; the pairs clique
  expansion links; neighbor lists with
  their shape and handshake laws.
- `src/nonbacktracking.rs`: directed arcs, the nonzero pattern of the
  Hashimoto matrix B, and the brute-force count of closed non-backtracking
  walks, proved equal to Tr(B^k).
- `src/continuum_limit.rs`: connected components, and random regular graphs
  from the configuration model: stub lists, the seeded shuffle of
  `rand`/`rand_pcg` (named by `seeded_shuffle`), and the pairing of a
  given stub list.
- `src/hypergraph_continuum_limit.rs`: hyperedges from neighbor lists.
- `src/cheeger.rs`: the mask numbering of bipartitions used by the exact
  Cheeger constant.

`app/` is the executable around the library: everything that computes in
floating point (Laplacian spectra, heat kernels, the Ihara zeta function,
Regge geometry and path integral, tensor calculus and geodesics, the
physics estimates) and the demonstration `main`.

`tests/` exercises the library on concrete graphs and complexes.
