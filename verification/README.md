# memnix

An interpreter for a subset of the nix language that evaluates
incrementally: every expression gets a semantic hash (its *color*), computed
from its shape and the colors of the expressions it refers to, and results
are memoized under the color of the evaluated expression together with the
values on its callstack.

## Layout

- `src/` — the library, verified with Verus.
  - `arena.rs`, `lazy_arena.rs`: arenas of expressions; a lazy arena holds
    deferred slots and references that `flatten` resolves.
  - `generic_lang.rs`, `mir.rs`: the expression language; `lower.rs` turns a
    syntax tree into it, and `lowering.rs` states which expression graph is
    the lowering of which syntax tree.
  - `coloring.rs`, `scc.rs`, `color_graph.rs`, `colorable_root.rs`:
    colors, computed component by component over the strongly connected
    components of the expression graph; `coloring_laws.rs` proves that colors
    depend on structure alone.
  - `value.rs`, `thunk.rs`, `eval.rs`: lazy evaluation with shared thunks;
    `eval.rs` defines evaluation as spec functions and proves the evaluator
    computes exactly them; `eval_laws.rs` proves what forcing does to thunks,
    `cache_laws.rs` that evaluation never drops or changes a stored record,
    `forcing_laws.rs` that forcing a thunk never gives a thunk.
  - `record.rs`, `cache.rs`, `memo.rs`, `memo_laws.rs`: records of values,
    their hashes, and the memoization cache; a value is recorded by following
    forced thunks, and `memo_laws.rs` proves that a forced thunk records as
    its value and a value rebuilt from the cache as its record.
  - `nix_syntax.rs`: nix source text to a syntax tree: rnix parses it, and
    the events of the tree it builds are read into an `Ast` by verified code.
  - `api.rs`: environments and the values they return; `Env::eval_raw`
    evaluates source text.
- `tests/` — tests of the library.
- `app/` — the command line program: reads a file, evaluates it with
  `Env::eval_raw_cached`, and keeps the cache on disk between runs.
