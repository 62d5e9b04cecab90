# zkvm_bench

Helpers for benchmarking zkVM provers, with the logic verified by Verus.

- `src/` — the verified library: decimal rendering (`decimal`), measured time
  spans (`elapsed`), the CSV report (`report`), the benchmark loops (`bench`) and
  the computation of the SHA-256 chain guest program (`chain`).
- `app/` — the unverified side: timing with `std::time::Duration`, writing
  reports to files, `bincode` sizes, and the prover runs and benchmark programs.
- `tests/` — tests of the library on concrete values.
