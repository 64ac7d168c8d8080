# linpow

The parsing and bookkeeping core of a Linux power monitor, verified with
Verus.

- `src/` — the library. Each reader takes the raw contents of the `/proc` or
  `/sys` files it needs and returns integer readings; each stateful meter
  (disk, network, RAPL domain, per-process ticks) turns cumulative counters
  into per-interval deltas. Contracts state results over spec functions of
  the file contents; laws (delta and wrap arithmetic, what a tick does to the
  followed processes) are public proof functions or clauses of the
  functions they concern.
- `tests/` — tests of the library on concrete file contents.
- `app/` — the I/O around it: reading the files, clocks, the sampler
  threads, and the floating-point presentation (watts, percentages, rates).
