# Helix

Helix is a small optimizing compiler for a typed language of integer and boolean
expressions, `let` bindings, assignments, `if`/`else` and `return`. Its middle end works
on control-flow graphs with SSA-style values and phi nodes: dominance analysis, sparse
conditional constant propagation, branch folding, unreachable-block pruning, phi
simplification and dead-code elimination. The library is written in Verus: every
function states what it computes in `requires`/`ensures` over mathematical models, and
Verus proves it.

## Layout

- `src/lexer.rs`, `src/parser.rs`, `src/ast.rs`: tokens and syntax trees, each with a
  specification of what a source text or token stream yields.
- `src/types.rs`: semantic analysis (symbol resolution, types, every path returns; one
  symbol per `let`, in source order);
  `src/check_laws.rs` proves that accepted programs return on every path and that their
  linear form never runs to its end without returning nor reads a symbol without a value.
- `src/ir.rs`, `src/runtime.rs`: the linear IR of straight-line programs and the
  interpreters of the IR and of SSA programs.
- `src/ssa.rs`: lowering to SSA and the SSA optimizer (constant folding, copy
  propagation, dead-code elimination); `src/ssa_laws.rs` proves that lowering keeps what a
  program computes, that optimizing keeps the value a successful run returns, and that the
  only operations on two constants left unfolded overflow or divide by zero.
- `src/cfg.rs`: control-flow graphs, reachability, pruning and the graph builder.
- `src/dominance.rs`: dominators, immediate dominators, dominator tree and dominance
  frontiers, with the classical laws.
- `src/cfg_runtime.rs`, `src/cfg_opt.rs`: the graph interpreter and optimizer;
  `src/cfg_opt_laws.rs` proves that optimizing keeps the value a successful run returns.
- `src/build_laws.rs`: what the builder's graphs satisfy (phi inputs are the blocks that
  jump to the phi's block, checked programs read no unbound symbol, counter bounds, runs
  never revisit a block, runs of graphs built from returning programs, optimized or not,
  never end without reaching a `return`) and that pruning keeps reachability.
- `src/value_laws.rs`, `src/optimized_laws.rs`: runs of the builder's graphs, optimized or not,
  never read a value before it is computed and never miss a block or a phi input; for programs
  that return on every path they end in a value or an arithmetic error; the shape of the
  builder's graphs (entry first, ids increasing, exactly the reachable blocks, every block
  terminated, each value computed once and every value read computed by an instruction) and
  of the optimized graphs.
- `src/result_laws.rs`: no two instructions of a built graph compute the same value.
- `src/fold_laws.rs`: the constant-propagation analysis knows the condition of every branch it
  reaches in a built graph, so no block of an optimized built graph branches on a constant.
- `src/corpus.rs`: the deterministic benchmark corpus of the optimizer.
- `tests/`: the test suite; `app/`: the command-line driver and the optimizer benchmark.
