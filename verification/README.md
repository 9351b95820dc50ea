# cielo

The middle of a compiler for a staged language with algebraic effects, verified
with Verus: from the syntax tree to the control-flow graph, with everything that
happens at compile time in between.

- `src/common`: identifiers, diagnostics, maps, texts and their order.
- `src/frontend`: the syntax tree.
- `src/ir`: the core program, the linear program and the control-flow graph.
- `src/sema`: types, effects, ownership, and the type checker.
- `src/passes`: lowering, evaluation at compile time, binding times,
  residualization, handler specialization, linearization, the control-flow graph,
  and reference counts.
- `src/pipeline`: what the passes hand on, what is kept from one run to the next,
  and the order of the passes.
- `app`: files, the clock, stored snapshots and floating-point arithmetic.

Floating-point literals are held by their bits. Whoever calls the evaluator hands
it a function that computes with them. Files are read outside of the library,
which gets their bytes.
