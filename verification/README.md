# monadicast

Rewriting passes over Rust syntax trees that lift C-flavoured Rust towards
safe Rust, with their decisions verified in Verus.

- `src/` is the verified library.
  - `monad/ast.rs`: `MonadicAst`, the parsed file the passes act on.
  - `passes/`: the decisions of each pass — FFI type replacement,
    removal of lone identifier statements, raw pointer access analysis,
    lowering of counting `while` loops into `for` loops.
  - `samples/`: the sample programs the tool is run on (insertion sort,
    breadth-first traversal, a multi-level feedback queue scheduler,
    user permissions), with their behaviour specified and proved.
  - `syntax.rs`: the trusted boundary with `syn` and `prettyplease`.
  - `name_map.rs`, `retain.rs`, `text.rs`, `paths.rs`: supporting pieces.
- `app/` walks the syntax trees with `syn`'s visitors, asks the library what
  to do at each node, and runs the command line tool and the interactive
  sample programs.
- `tests/` exercises the library on concrete values.
