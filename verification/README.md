# bqlite-operators

Physical operators of an embeddable behavioural query engine, written in Verus:
executable Rust whose behaviour is stated in contracts and proved.

- `src/` is the verified library.
  - `matcher` finds event sequences: an automaton simulator (`nfa`), a step counter
    for linear patterns (`step_counter`), and the operator that picks between them
    and shows what was found (`output`, `emit`). `nfa_laws`, `step_laws` and
    `agreement` state what holds of both.
  - `sessionize` divides the events of an entity into sessions; `session_laws`
    states what a session is.
  - `scan` decides what a table scan reads and keeps, and merges tables into one
    stream in order of entity and time; `merge_drain` merges sources whose batches
    are all at hand, and `merge_laws` and `scan_laws` state what a drained merge and a
    drained scan have returned.
  - `materialize`, `chunks` and `selection` turn selected rows into record batches.
  - `columnar` is the one place that calls Arrow. Its wrappers are trusted: their
    contracts are claims about Arrow, not proofs. `matcher::bindings` and
    `matcher::step_counter` do the same for `smallvec`.
- `app/` is ordinary Rust around the library: settings from the environment, the
  loop of a table scan, and the merge of operators.
- `tests/` runs the library.
