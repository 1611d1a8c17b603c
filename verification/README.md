# volt_hir

The semantic checks of the Volt hardware description language, written in
Verus: every function of the library is verified against its contract.

The checks read a resolved source file through small input types of their
own (arenas of expressions, blocks, statements and items referenced by
index) and return structured findings, each with its diagnostic code.

## Layout

- `src/ast.rs`, `src/text.rs`, `src/paths.rs` — shared input types, string
  and path helpers with their specifications.
- `src/resolve/` — name resolution: scopes, definitions, imports, usage
  warnings, instantiation cycles.
- `src/consteval.rs` — compile-time evaluation of constants, widths and
  array lengths, with memoization and cycle detection.
- `src/domain/` — clock-domain inference and the crossing checks; `rdc.rs`
  holds the reset-domain checks.
- `src/drivers.rs` — multiple, partial and missing drivers.
- `src/handshake.rs` — the `Handshake<T>` producer rule.
- `src/timing.rs`, `src/constraints.rs`, `src/constraint_walk.rs` — the
  timing-constraint model (clocks, asynchronous groups, CDC bridges, path
  rules).
- `src/attrs.rs`, `src/extern_source.rs`, `src/manifest_search.rs` —
  attribute policy, `@source` of extern modules, manifest discovery.
- `app/` — the file-system and environment side: manifest discovery on
  disk, the lint policy of the nearest manifest, project roots.
- `tests/` — scenario tests.
