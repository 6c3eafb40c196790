# optimize_history

Optimizes the history above a commit of a git repository. Where several commits have the same tree,
one of them is canonical: the one that is least deep, then the oldest, then the one with the
smallest id. Branches that stand on top of another one are moved onto the canonical commit. A run
goes through rounds until one of them changes nothing.

- `src/` is the library. It is written in Verus and does no input or output. `session.rs` holds the
  entry point `optimize_history` and the `Session` that it begins; `model.rs` says what a session
  does, as a state machine; `laws/` proves what follows for every run.
- `app/` carries runs out on the repository of the current directory, with `git2`.
- `tests/` runs the library on given values and on small repositories in memory.

One thing is believed and not proved: how `git2` writes an object id as text (`oid.rs`).
