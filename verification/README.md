# rust_devtools_mcp

The logic of a server that offers Rust development tools over the Model Context Protocol, verified
with Verus: projects and their configuration, symbol resolution, edits across files, code actions
and diagnostics, and what the tools answer.

- `src/` is the library. Each function states what it returns or changes; the laws that relate
  several functions are public proof functions whose names start with `law_`.
- `app/` is the program around it: the command line, files, the language server, cargo, and the
  transports.
- `tests/` runs the library on concrete values.

Outside crates are called from a few functions marked as external, each with a comment that says
what is taken for granted: paths and text (`paths.rs`, `text.rs`), tables (`store.rs`), and work in
parallel (`files.rs`, `locate.rs`, `symbols.rs`).
