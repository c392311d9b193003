# databend-query

Verified kernels of a query engine, written in [Verus](https://github.com/verus-lang/verus).

- `src/hash_join/` - the probe side of a hash join. `probe` finds the candidate rows, `fill` turns
  the verdicts of an extra predicate into a filter, `result_blocks` decides what the engine does with
  the blocks. `laws` and `theorems` state and prove which rows inner, semi, anti and left joins give,
  `relations` how the joins relate to each other.
- `src/aggregator.rs` - aggregation without grouping: where the states live, and which calls on the
  aggregate functions a block or the result take. `src/split_aggregation.rs` proves that the results
  do not depend on how the input is split over partial aggregators.
- `src/interpreter_copy.rs` - the `COPY` interpreter as a state machine.
- `src/parser_kill.rs` - the `KILL` statement.
- `src/bitmap.rs`, `src/arena.rs` - the bitmaps of `arrow2` and the arenas of `bumpalo`, with the
  contracts that the proofs rely on.
- `app/` - drivers that connect the kernels to the blocks, functions and tables of the engine.
