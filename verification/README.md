# arandu_mir

Analyses and optimizations over AMIR, the mid-level IR of the Arandu
compiler, written in Verus with their contracts proved.

- `amir` — the IR, its well-formedness predicates (`wf`, `wf_body`,
  `wf_shape`) and CFG edge lists.
- `sccp`, `dce`, `simplify_cfg`, `optimize` — constant propagation,
  mark-sweep dead code elimination, CFG simplification and the pipeline.
- `remap`, `splice` — renaming of temps, locals and blocks, and splicing a
  callee body in place of a call.
- `borrow_facts`, `holder_paths`, `borrow_interface` — loans and the paths at
  which values hold them, and the origin maps of borrow interfaces.
- `coro_promote`, `escape`, `prune`, `move_lattice`, `validate`,
  `diagnostics` — the remaining passes and helpers.

`tests/` exercises the library on concrete functions.
