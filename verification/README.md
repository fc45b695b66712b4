# lox

Two implementations of the Lox language, with their front ends, verified with Verus.

- A bytecode tool chain: a scanner (`scanner`), a single-pass compiler from source to a
  chunk of bytecode (`compiler`, specified by the code generator of `codegen`), and a
  stack machine that runs the chunk (`vm`, over the heap and globals of `memory`).
- A tree-walking interpreter (`treewalk`): its own scanner, a recursive-descent parser
  whose grammar is stated in `treewalk/grammar.rs`, a resolver of local variables, an
  arena of environments, and an interpreter that runs a program statement by statement.

The machines are step machines: where Lox needs floating-point arithmetic or the clock,
they stop with a request, and their driver answers it. `src/` is the verified library;
`app/` is the command-line program around it (files, the prompt, printing, the numbers),
and `tests/` exercises the library.
