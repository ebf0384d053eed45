# forge

A runner for staged content pipelines. A pipeline is a YAML file listing
stages; each stage runs a command that reads a composed context (its task,
the previous stage's output, reference material) on stdin and writes its
output into a `.forge/` workspace ("briefcase") in the current directory.
Stages may stop at a review gate until a human approves them.

## Layout

- `src/` — the verified library (Verus):
  - `pipeline.rs` — pipeline definitions, validation, reference layering;
  - `executor.rs` — the run/stage state machine, template expansion,
    environment and context composition for a stage's command;
  - `briefcase.rs` — workspace bookkeeping: references to link, stage output
    files, the final output's name, `.gitignore` management;
  - `config.rs` — configuration search, pipeline directories, pipeline
    discovery with shadowing;
  - `listing.rs` — pattern selection, stage chains, word wrapping and the
    compact listing layout, run summaries;
  - `store.rs` — run records and their statuses;
  - `cli.rs`, `init.rs`, `error.rs` — commands, `forge init` decisions, errors;
  - `text.rs`, `paths.rs`, `order.rs` — strings, Unix paths and sorting,
    with their mathematical models.
- `app/` — the `forge` binary: argument parsing, YAML and record files,
  the record store, process execution and terminal output.
- `tests/` — tests of the library.
