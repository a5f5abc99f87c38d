# chezfl

A personal system-state manager. You declare the desired state of a machine
as **targets** (leaf targets with a check, aggregate targets satisfied by
their dependencies, stub targets set by hand) and the **tasks** that bring
them about; the engine checks, plans and applies them in dependency order.

The engine is written in Verus and verified: every public function states in
its contract what it returns or changes. The check, plan and apply runs also
state which user closures they call (check functions and task actions), in
order, with what each gave back (a check's answer or error, whether a task
succeeded), and that the steps they report are judged from exactly those
answers. A closure is only ever called by the function that records the
call and its result in that ghost record (`run_probe` for checks,
`App::run_action` for tasks).

## Layout

- `src/` — the verified library
  - `target.rs`, `task.rs` — declarations and their builders
  - `state.rs` — what is remembered of each target (manual overrides,
    last check results)
  - `graph.rs` — cycle detection and the order of a run (dependencies
    first, then by name, placed by Kahn's algorithm)
  - `app.rs` — the registry, its validation, and the check, plan and apply
    engines, each specified by a trace of what it does per target
  - `cli.rs` — the command line as values: overrides, filters, running a
    subcommand, completion candidates
  - `render.rs` — the lines printed for a run
  - `cmd.rs` — building commands and the retry policy between attempts
  - `tools/` — the decisions behind the tool wrappers (up-to-date checks,
    clean working trees, default MIME handlers)
  - `laws.rs` — properties that span several functions
  - `text.rs` — decimal rendering, trimming, joining, string order
- `app/` — the program around it: argument parsing with `clap`, the TOML
  state file, running processes, the tool wrappers, and the global registry
  behind the `target!`/`task!`/`run!` macros
- `tests/` — tests of the library
