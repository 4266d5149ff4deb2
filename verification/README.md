# naga_prune

Dead-code pruning for shader modules, verified with Verus.

A `Pruner` is told which functions and entry points of a module matter, and
which parts of their results. It goes through the bodies backwards, finds out
which statements, expressions and parts of variables are required for that, and
rewrites the module to what is left.

## Layout

- `src/ir.rs`: the module, after naga's intermediate representation.
- `src/part.rs`, `src/context.rs`, `src/need.rs`: requirements on values, at a
  point of a function, and on statements, blocks and functions.
- `src/expr.rs`, `src/store.rs`, `src/flow.rs`, `src/live.rs`, `src/pruner.rs`:
  the analysis. `flow.rs` says what it finds; `pruner.rs` finds it.
- `src/remap.rs`, `src/prune.rs`, `src/uses.rs`, `src/derive.rs`,
  `src/rewrite.rs`: the rewriting.
- `src/sizes.rs`: how large a module is.
- `src/table.rs`: the entries of maps as vectors.
- `src/part_laws.rs`, `src/store_laws.rs`, `src/depth_laws.rs`,
  `src/grow_laws.rs`, `src/flow_laws.rs`, `src/ready_laws.rs`, `src/block_laws.rs`,
  `src/rewrite_laws.rs`: laws of the whole.
- `app/`: the same for naga's own modules, which are converted on the way in and
  out.

## Panics and the total functions

`add_function`, `add_entrypoint` and `rewrite` may be called where their
preconditions hold. `try_add_function`, `try_add_entrypoint` and `try_rewrite`
may be called on any module, and say when they stopped.
