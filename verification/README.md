# tsk

A small task runner in the spirit of Make and Just, with a simpler syntax:
variables, tasks with `@deps`, `@desc`, `@default`, `@silent`, `@ignore`,
`@error`, and `if` / `else if` / `else` blocks. The library is verified with
Verus: each public function states what it computes over a mathematical model,
and the properties the language promises are proved.

Layout:

- `src/text.rs` - character classes, trimming, searching, decimal rendering.
- `src/lexer.rs` - source text to line-oriented tokens.
- `src/parser.rs` - tokens to a taskfile; properties of parsed taskfiles
  (the last `@default` wins, a redefined task replaces the earlier one,
  variables are listed once, the default task is one of the tasks).
- `src/vars.rs` - `$NAME`, `${NAME}` and `$$NAME` expansion.
- `src/executor.rs` - the runner as a state machine: it hands out requests
  (change directory, set a variable, run a command) and takes the replies;
  properties of runs (dependencies first, each task at most once, cycles
  reported, `@ignore`, `@silent`, dry runs, `@error`).
- `src/cli.rs` - command-line options, what to run, the task list.
- `src/platform.rs` - the system variables and the shell, from what the
  machine reports.
- `src/error.rs` - errors, exit codes and their text.
- `app/` - the `tsk` program: reads files and the environment, performs the
  runner's requests.
- `tests/` - tests of the library on concrete inputs.
