# flameview

A library and two programs for folded ("collapsed") stack profiles, the
`stack;frames count` lines that `perf` and `cargo flamegraph` produce.

The library (`src/`) is written in Verus and proved:

- `arena` — the call tree: frames with their own and inclusive sample
  counts, children listed youngest first. Every operation keeps the tree
  well formed, and every inclusive count is the (saturating) sum of the own
  counts below it.
- `subtree` — a frame's inclusive count is its own count plus its
  children's inclusive counts.
- `loader` — reading collapsed stacks line by line, from a slice or any
  reader; errors name the offending line. Any reordering of the lines
  loads exactly when the original order does, with the same own and
  inclusive counts at every stack.
- `summarize`, `summary_totals` — the summary order (depth first, heaviest
  child first), cut off by a line limit and a caller's coverage test; a full
  summary lists every frame once and accounts for every sample.
- `coverage` — how the caller's coverage test enters the contracts.
- `viewer` — the interactive tree view's rows, "Other" rows, cursor and key
  handling, without the terminal; every frame has at most one row, the rows
  one level down count all of their parent's children, and, for a coverage
  test that answers as a predicate of its arguments, collapsing a frame
  undoes expanding it.
- `cli` — what `cargo flameview` asks of `cargo` and `perf`, which artifact
  it runs, and its error messages.
- `text` — byte and character helpers.

`app/` holds the programs: argument parsing, files, the terminal, child
processes, and the floating-point percentages. Installed as
`cargo-flameview` the program profiles a cargo target; under any other name
it views or summarizes a folded stack file (`-` reads standard input).

`tests/` exercises the library on concrete inputs.
