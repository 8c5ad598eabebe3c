# fountain_engine

Core algorithms for fountain code encoding and decoding, written in Verus:
every function in `src/` carries a `requires`/`ensures` contract that Verus
proves.

The engine is data-free. The encoder and decoder do not touch data vectors;
they record `Operation`s through a `DataManager`, and a `DataOperator`
supplied by the user carries them out (or they are collected and replayed).

## Layout

- `src/algebra/` — GF(2) and GF(256) arithmetic (multiplication laws proved
  for every reduction polynomial; for the whitelisted primitive polynomials,
  every non-zero element has an inverse), dense linear algebra: LU
  decomposition with row and column permutations (`P A = L U` proved, also
  for the incremental form), triangular solves (`L (U x) = b` proved) and a
  linear solver whose solution satisfies the pivot equations.
- `src/data_manager.rs` — data vector IDs, the operation log (each
  operation is appended when recording and handed to the attached operator
  once, in order; the log only grows), padding, and the moves of ordinary
  coding (with the law that restoring undoes the preparation).
- `src/engine/` — the solver stack: packed GF(2) matrices (incremental LU
  over GF(2) with the same factorization law), the sparse master
  system with belief propagation and inactivation, the Tanner graph used for
  trial inactivation, the dense inactive system (Gaussian elimination whose
  incremental LU factors the kept rows; its substitution records exactly
  the forward and backward operations),
  ordinary precoding, and `SystemSolver`, which drives them. `bp` and
  `solver` hold a belief-propagation decoder over an explicit Tanner graph
  (with its consistency invariant proved) and the dense solver built on it.
- `src/encoder.rs`, `src/decoder.rs` — the public encoder and decoder.
- `src/traits/` — `CodeScheme`, `DataOperator`, `LDPC` and `HDPC`, which a
  code scheme implements.
- `app/lib.rs` — conveniences for ordinary Rust callers: a printable error
  type for rejected field polynomials and closures as degree set generators.

## Outside crate

`smallvec` backs the short adjacency lists of the sparse master system; the
library reaches it through a handful of small wrappers whose contracts state
what each `SmallVec` method does to the list.
