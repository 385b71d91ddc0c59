# compilation

A verified compiler back end: it turns a program in an intermediate form
(lambdas, assignments to numbered locations, conditionals and matches) into
machine nodes and emits them as C++ code. Every function of the library is
proved by Verus against a contract over mathematical models of its input and
output.

Layout:

- `src/intermediate.rs`, `src/ir_model.rs` and the `ir_*` files: the
  intermediate nodes, their models, and the walks over them (targets, values,
  substitution, types, cloning).
- `src/copy_propagation.rs`, `src/expression_equality_checker.rs`,
  `src/fn_inst.rs`, `src/recursive_fn_finder.rs`: analyses and rewrites of the
  intermediate program.
- `src/compiler.rs`: the compilation of intermediate programs to machine nodes.
- `src/machine.rs`, `src/declarations.rs`, `src/weak_referrer.rs`,
  `src/allocations.rs`: the machine nodes, the bookkeeping of their
  declarations, the detection of cycles of closures (the strongly connected
  components of references between closures and their environments), the
  allocators added for those cycles, and the environment slots that become
  weak references.
- `src/emission.rs`, `src/text.rs`: the C++ text of machine nodes.
- `src/code_size.rs`, `src/code_vector.rs`, `src/size_estimator.rs`: vectors of
  operator counts and estimated code sizes; the ranges of sizes are computed by
  the `intervallum` crate behind four trusted wrappers.
- `app/`: the command-line arguments and the export of a code vector to a file.
- `tests/`: tests of the library on concrete programs.

Not in the library: the lowering of type-checked programs to the intermediate
form (it reads the type checker's types, which are not part of this project),
and the final weakening pass that the compiler of the full tool chain applies
after compilation. `Compiler::compile` returns the program as compiled; the
pieces of that pass that this library holds (`detect_closure_cycles`,
`add_allocations`, `weaken_fn_def`) are separate functions.
