# danqing_logfile

A log file engine. The bytes of a file are indexed by line, with one recorded
offset for every eight lines; the lines can then be read by number, walked in
order, searched with a regular expression and, where they are JSON, shown in
columns and filtered by their fields.

- `src/` is the library, with its contracts and proofs.
  - `lines`, `chunk`, `index`, `append`, `lookup`: what the lines of a file are,
    and the index that finds them.
  - `hooks`: progress and cancellation.
  - `logfile`, `search`: an open file.
  - `jsonl`: JSON lines, made up of `fields` (values by their written form),
    `value` (JSON values), `written` (how bytes write them), `schema` (columns),
    `query`, `filter` and `screen` (a first look at a line, before it is parsed),
    with `text` and `number` below them.
  - `scan`: one top-level field of a line, in one pass; `compact`: what it finds
    in the text of an object.
- `app/` reads files, runs the threads, decodes lines, and reads numbers.
- `tests/` runs the library.

A byte range is scanned or filtered on its own, so that a caller may hand the
ranges of `chunk_bounds` and `plan_filter` to threads and join the results with
`assemble` and `join_hits`. All bytes of a scan are reported as progress exactly
where it was not cancelled.

Numbers are compared by the bits of their binary64 form. The functions that
compare them take a function that reads such bits from a text.
