# nistrs

Statistical tests for binary sequences after NIST SP 800-22, as a Verus
library with the integer part of each test proved against its specification.

- `src/` — the verified library: the bit sequence (`bits.rs`), the random walk
  (`walk.rs`), cyclic pattern counts (`patterns.rs`), linear feedback shift
  registers and Massey's lemma (`lfsr.rs`), and for each test the statistic it
  computes and the conditions under which it refuses its input.
- `app/` — the p-values, which are floating point (`libm`, `statrs`,
  `rustfft`), and the threads (`rayon`) that run one template or one block
  per task.
- `tests/` — tests of the library on concrete sequences.
