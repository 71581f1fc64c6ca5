# herdr_branch_labels

Display-only sidebar labels for Herdr spaces: the useful part of a Git
branch, and the names of grouped worktree spaces.

- `src/` is the library, verified with Verus:
  - `json.rs`: the JSON values the logic reads and writes, their model, lookup,
    equality and copying;
  - `text.rs`: Unicode whitespace, trimming, whitespace collapsing, sidebar tokens;
  - `formatter.rs`: the regex formatter of branch names (fancy_regex behind
    trusted wrappers) and its configuration;
  - `workspace.rs`: saved identity hints, grouping of worktrees, display tokens;
  - `herdr.rs`: what a Herdr command's outcome means, and publishing tokens;
  - `runtime.rs`: reading pipes, waiting for a subprocess, decoding output,
    reading Git's answer;
  - `refresh.rs`: the decisions of a refresh, and the session lock's name
    (sha2 behind a trusted wrapper);
  - `laws.rs`: properties of the library as a whole, proved.
- `app/` is the plugin command: environment, files, subprocesses, threads, the
  lock, and serde_json parsing and printing around the library.
- `tests/` runs the library on concrete values.
