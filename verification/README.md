# rer

A package resolver in the style of rez (phase-based, backtracking), written
in Verus: the executable code carries `requires` / `ensures` contracts and
Verus proves them.

## Layout

- `src/` — the verified library.
  - versions, ranges and requirements: `version*.rs`, `range*.rs`,
    `requirement.rs` (grammar, order, set operations on ranges, merging of
    requirements), with the laws they obey in `laws.rs`;
  - the resolver: `variant*.rs`, `repo.rs`, `context.rs`, `scope.rs`,
    `phase.rs`, `rez_solver.rs`, `graph.rs`, `failure.rs`, `status.rs`;
  - families found one load at a time: `family_loads.rs` (what is held, for
    which range, and what a load returned) and `lazy_solve.rs` (a resolve
    that asks its caller for the loads it needs);
  - a resolve from plain inputs with a textual answer: `solve_api.rs`;
  - package definitions: `package_py.rs` with `python_ast.rs` (a static
    reading of `package.py`), `package_source.rs`, `local_packages.rs`;
  - package filters and candidate selection: `package_filter.rs`,
    `candidate.rs`, `package_id.rs`; command-line options: `cli.rs`.
- `tests/` — tests run against the compiled library.
- `app/` — the command-line program: argument parsing, reading package
  directories and files, printing.

Calls into outside crates (`regex`, the Python parser) go through small
trusted wrappers whose contracts state what those crates document.
