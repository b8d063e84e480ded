# MiniImp and MiniFun, verified

Interpreters, a type checker, a control-flow-graph builder, dataflow analyses,
optimisations and an LLVM IR emitter for two small teaching languages, written
in Verus with every function's contract proved.

## Layout

- `src/common`: the error type, text helpers (decimal rendering, character
  classes), scanning of names and numbers, the order of names, and binding
  lists.
- `src/minifun`: the functional language. Lexer, recursive-descent parser,
  type checker, fuel-bounded evaluator, and the proof of type soundness
  (`soundness.rs`).
- `src/miniimp`: the imperative language. Lexer, parser, evaluator, control-flow
  graphs (`cfg.rs`) and what running them means (`cfg_semantics.rs`), the three
  dataflow analyses as least or greatest solutions of their equations (`fixpoint.rs`,
  `dataflow.rs`) and what they say of paths (`dataflow_paths.rs`), the optimisations (`optimizations.rs`) and the LLVM IR
  emitter (`llvm.rs`).
- `tests`: tests on concrete programs.
- `app`: the command-line program that runs the pipeline on sample programs
  and prints each stage.

## What is proved

- Each lexer, parser, type checker and interpreter computes exactly its
  specification, error messages included; a space between two texts only
  separates their tokens (given, as std reports, that a space is whitespace
  and no letter or digit).
- A well-typed MiniFun program never fails with an error when run.
- A MiniImp run changes only the variables its command assigns; `skip` is a
  unit of sequencing, sequencing is associative and a loop runs as its
  unfolding.
- The control-flow graph of a MiniImp program runs like the program from any
  memory, in both directions; its two-way edges sit exactly at its
  conditions, and every node lies on a path from its start to its exit.
- The dataflow analyses are sound for paths and, on a program's graph,
  complete: the defined variables, the reaching definitions and the live
  variables are exactly those that the paths give.
- Constant folding reports exactly its changes and a second pass changes
  nothing; folding and propagation keep every run of a graph; dead-store
  elimination and the whole optimisation pipeline keep the output, the edges
  and the node ids, and only simplify blocks; a graph with no
  possibly-undefined reads never fails.
- The LLVM IR is exactly the text its specification describes.
