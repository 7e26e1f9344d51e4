# lau-spectral-zeta

Spectral zeta analysis of agent state spaces, with its discrete core verified
in Verus.

- `src/` — the verified library:
  - `laplacian.rs`: the Laplacians of the built-in topologies (path, cycle,
    complete graph, star, lattice), described by their neighbour lists
    (L = D - A) and built exactly as integer matrices.
  - `laplacian_laws.rs`: symmetry, zero row sums and positive
    semidefiniteness of those Laplacians.
  - `sums.rs`: finite sums and the quadratic form, with the lemma that a
    symmetric weakly diagonally dominant matrix with non-positive off-diagonal
    entries is positive semidefinite.
  - `stability.rs`: sorting zeros into critical-line, critical-strip and
    exterior ones, and the stability classification read off their counts.
- `app/` — the floating-point spectral analysis (eigendecomposition, zeta,
  heat and resolvent traces, functional equation, determinant, zero search),
  which uses the library for Laplacian construction and stability
  classification.
- `tests/` — tests of the library.
