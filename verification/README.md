# csv_parser

A streaming reader of comma-separated records, written in Verus. Fields are
separated by `,` and records by `\n`; there is no quoting, and an empty line is a
record without fields. Input is read into one
reused ring buffer, and fields are handed out as slices of it.

- `src/` is the library. `Parser` is a machine that does no input of its own:
  `read_record` begins a record, and while the answer is `Step::Read` the owner
  reads into the space of `read_request` and reports to `resume`. `src/model.rs`
  says what a text means, and `src/laws.rs` proves what holds of whole runs.
- `app/` puts the machine to any `std::io::Read`.
- `tests/` runs the library.

What is taken on trust stands in `src/deque.rs` (three methods of std's
`VecDeque`) and in `src/scan.rs` (`memchr::memchr2`).
