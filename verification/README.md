# slopic-core

The core of the Slopium compiler, written in Verus: the functions in `src/`
carry contracts that Verus proves.

Not here: the type checker and the lowering of typed programs to MIR, and
the building of a program's tree from its parsed forms. Package analysis
starts from parsed programs (`package::pipeline::analyze_programs`) and
stops before type checking.

## Layout

- `src/lexer.rs`, `src/reader.rs`, `src/parser.rs` — source text to tokens,
  the reader's abbreviations, and the S-expression forms.
- `src/syntax.rs` — the lossless token stream and tree, and the formatter.
- `src/ast.rs` — the program as the later passes see it.
- `src/package.rs` and `src/package/` — module identities, name
  declaration and resolution across a package, rewriting a program to
  canonical names, moving spans by where a file starts, and joining the
  modules' programs into one (`package::pipeline::analyze_programs`, from
  parsed programs to the package's one program).
- `src/sema.rs` — the ownership environment, type substitution and
  unification the type checker builds on, and what a `match` covers.
- `src/mir.rs`, `src/mir_print.rs`, `src/cfg.rs`, `src/verify.rs` — the
  mid-level IR, its printed form, its control-flow graph and its checker.
- `src/opt.rs`, `src/opt/` — constant propagation, dead-code elimination,
  inlining and the optimisation pipeline.
- `src/regalloc.rs` — live intervals and register allocation.
- `app/` — what Verus does not see: reading the environment switch for the
  MIR checker, writing float constants' values for the MIR listing, and the
  JSON form of MIR modules.
- `tests/` — the tests, run against the compiled library.
