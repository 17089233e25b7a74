# parbench

Kernels of a set of fork-join benchmarks, with their integer logic verified
in Verus.

- `src/` is the verified library:
  - `config`, `adapint`, `bh`, `nqueens::parse_threshold`: decimal build
    settings with their defaults, and the check that a setting is well formed;
  - `nqueens`: the N-queens solution counter, sequential and parallel
    (rayon), against the recursive count `solutions`, which is proved to be
    the number of non-attacking placements;
  - `sort`: front-to-back merge, the parallel merge (binary-search split,
    `rayon::join`) and the ping-pong parallel merge sort;
  - `splayed`: the counter that yields the numbers with bits at even
    positions only, in increasing order (the z-order index walk), with the
    laws of its whole run;
  - `matmul`: `join4`/`join8` over `rayon::join`, the quarter splits of a
    slice and the parallel copy used by the matrix multiplications;
  - `slices`: the slice copy of std.
- `app/` is the command-line driver (`app <benchmark> <args>`), with the
  floating-point kernels (adaptive integration, Barnes-Hut, matrix
  multiplication) and thread pinning.
- `tests/` runs the library on concrete inputs.
