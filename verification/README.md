# labs_search

Branch-and-bound search for binary sequences of low autocorrelation energy,
written in Verus.

A sequence of `n` signs is built from both ends towards the middle. Each node
keeps, for every lag, the correlation of the pairs whose two positions are
fixed and the range that the pairs touching the free middle can still add; the
lower bound on the energy of every completion is derived from them.

Layout of `src/`:

- `model.rs`, `sums.rs`: the mathematical model (correlations, energy,
  completions, the ranges of the free pairs).
- `bit_sequence.rs`, `free_bounds.rs`: the node and its incremental bookkeeping.
- `energy.rs`: the lower bound and the energy of complete sequences.
- `symmetry.rs`, `roots.rs`: the symmetries of the energy and the canonical roots.
- `search.rs`: branching and one step of the depth-first search.
- `bound_law.rs`, `range_law.rs`, `canonical_law.rs`, `search_law.rs`,
  `symmetry_law.rs`: the laws of the library (the bound never exceeds a
  completion's energy, the ranges are reached and have equal parity, the
  canonical roots lose no energy, a search step loses no sequence below the
  best energy and lowers the work left, every energy is reached from a root,
  the symmetries act on a node's correlations and ranges as they do on
  complete sequences).
- the remaining `*_lemmas.rs` files hold the supporting proofs.

`app/main.rs` is the command-line program: it reads the length and the initial
bound, runs the search over the roots in parallel and logs the incumbents.
