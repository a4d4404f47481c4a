# brick_road

The planning core of Brick Road, a working-day timeline of work blocks,
dependencies and plans, verified with Verus.

## Layout

- `src/`: the library, every function with a contract proved by Verus.
  - `date`, `calendar`: dates as day numbers (through `chrono`), working-day
    stepping, timeline columns and holidays.
  - `model`: work blocks, dependencies, plans (rows, row names,
    allocations), resources; `Model::wf` is the model's invariant.
  - `graph`, `analysis`, `flow`: dependency graph, topological order,
    constraint violations, the flow layout.
  - `csv`, `plan_csv`: the blocks CSV format, plan export and import.
  - `edits`, `undo`, `paste`, `clipboard`, `inspector`, `rows`, `selection`:
    the editing operations and their undo.
  - `labels`, `layout`, `bands`, `datepicker`, `document`, `store`: timeline
    labels, layout arithmetic, branch bands, the date picker, document
    files and the stored model's checks.
- `tests/`: tests of the library.
- `app/`: a command-line program around the library: SQLite storage,
  files, import and export.
