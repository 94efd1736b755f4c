# cargo_task

A task runner for cargo, as a verified library (`src/`) and the program around it
(`app/`).

- `src/at_at.rs` — the incremental AtAt parser (`@key@ value @@`), its state
  machine as spec functions, and its laws (chunking, recognition).
- `src/text.rs`, `src/order.rs` — whitespace, trimming, splitting and joining of
  text; the order of task names.
- `src/cargo_task_util.rs` — task metadata, the sorted task table, the task
  environment read from `CT_` variables, log lines.
- `src/env_vars.rs`, `src/env_loader.rs` — the `CT_TASK_<name>_<FIELD>` variables,
  the command line split, task metadata directives, and the round trip from a task
  table to variables and back.
- `src/exec.rs` — task ordering (dependencies first, cycles refused), the run's
  decisions, task directives and the generated Cargo.toml texts.
- `src/semver.rs`, `src/task.rs` — versions; system tasks, help lines, `ct-init`.
- `app/` — the `cargo-task` program: environment, files and processes.
