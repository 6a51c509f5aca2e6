# qmbed

Exact diagonalization of quantum many-body systems, with the combinatorics and the
algebra verified by Verus.

* `src/` is the verified library: Hilbert-space bases and their symmetries, operator
  strings and their matrix elements, sparse and dense matrices, Hamiltonians, projectors,
  archives, and the decisions of the solvers. Matrix elements are exact lists of factors;
  everything that adds or multiplies numbers is generic over the traits in
  `src/scalar.rs`.
* `app/` is ordinary Rust around the library: complex floating-point numbers as an
  implementation of those traits, eigensolvers, time evolution, entropies, files, threads
  and the JSON request interface.
* `tests/` runs the library on concrete systems.

The laws that hold of the library as a whole are public proof functions, each beside the
functions that it speaks of. Laws on arithmetic that does not round are in
`src/exactness.rs`, `src/composition.rs` and `src/streaming.rs`.
