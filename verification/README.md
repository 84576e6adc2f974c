# polyrust

The verified core of a multi-target code generator, written in Verus.

- `src/document.rs` — an immutable document model and a width-aware
  pretty-printer; `render` is proved equal to a mathematical layout function,
  with laws on concatenation, the final-newline policy and the render limits.
- `src/language.rs` — target-language fragments with their import and helper
  requirements, import sets, and the runtime-helper graph with its
  dependency-ordered resolution.
- `src/package.rs` — source files, file groups and packages, and their
  rendering into an output manifest.
- `src/output.rs` — output files and the manifest, which refuses paths that
  are absolute or leave the output directory.
- `src/backend.rs` — target identifiers, versions, option schemas and the
  backend registry; `src/cli.rs` — the command-line grammar.
- `src/portable.rs`, `src/checker.rs` — the prototype portable model and its
  checker: `check` passes a module exactly when nothing is reported, and
  every report (code and message, in order) is stated by a spec function.
- `src/ir.rs`, `src/typing.rs`, `src/body.rs` — the version-0 IR as its
  type checker reads it, the typing of intrinsic operations, and the checking
  of function bodies, functions, records, contracts and implementations. Each check
  records in order what it finds (diagnostics, expression types, resolved
  locals, required capabilities), and every record is stated by a spec
  function over the syntax tree and the module's declarations.
- `preflight` in `src/backend.rs` refuses, with one diagnostic each, the
  capabilities a backend does not support; `validate_backend_request` checks
  a request in the backend's order: IR version, options, capabilities.
- `src/order.rs`, `src/text.rs` — the orders, sorted collections and text
  helpers the rest is built on.

`app/` holds the command-line program: file I/O, the output transaction and
JSON output, around the library.
