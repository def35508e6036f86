# tsv_filter

Filter CSV/TSV rows by an arithmetic condition on selected fields
(`-f '<fields><op><value>'`, e.g. `age>12`, `1,3<=2`, `-F 'c*!=0'`), with the
reading and writing rules of Go's `encoding/csv`.

The library under `src/` is verified with Verus:

- `filter.rs` — the condition grammar, decimal literals, and the per-row
  pass/fail decision (`--any` or all).
- `fields.rs` — field lists (indices, ranges, exclusions, column names, globs)
  and their resolution against the first record.
- `csv_format.rs` — line-end normalisation, strict quote validation, and the
  writer's quoting.
- `cli.rs` — the flags as plain values and the options they stand for.
- `lib.rs` — loading a table and the row loop, specified as a fold over records.
- `laws.rs` — properties that hold across inputs and calls.
- `outside.rs` — the contracts taken on trust from the `regex` and `csv` crates.

`app/` is the command around it: flag parsing, file I/O, and the
floating-point comparisons that each data row is decided on.
