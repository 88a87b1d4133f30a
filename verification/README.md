# hodge-belief

Hodge decomposition for belief states on graphs, with a verified core.

## Layout

- `src/` — the library, verified with Verus:
  - `error.rs`: the error type and its messages (decimal numbers included);
  - `matrix.rs`: dense row-major matrices over any entry type — construction,
    access, transpose, columns, the diagonal and column selection — and the
    law that transposing twice gives the matrix back;
  - `laplacian.rs`: the Laplacians of the path, the cycle and the complete
    graph, built exactly over `i64`, with contracts that give every entry;
  - `laplacian_laws.rs`: their laws — symmetry, zero row sums, harmonic vectors
    are exactly the constant vectors, positive semidefiniteness, and the
    eigenvectors of the complete graph;
  - `sums.rs`: finite sums and the rules used to compute them;
  - `hodge.rs`: the input checks of the decomposition.
- `app/` — the floating-point side: matrix arithmetic, the Jacobi eigen-solver,
  the decomposition, the Hodge realization, belief states and the stability
  analysis, built on the verified core.
- `tests/` — tests of the verified core.
