# commit log reader

Reads git's raw commit log format (`git log --format=raw`) one line at a
time and prints each commit in a normalized form with ISO-8601 dates.

- `src/parser.rs`: `CommitReader`, a state machine fed one line (or read
  error, or end of input) at a time, with its specification `reader_step`;
  `parse_log` for a log already in memory; the laws that an error is the
  last item and that a stopped reader stays silent.
- `src/raw.rs`: how a commit is written in the raw format, and the proof that
  reading the raw lines of well-formed commits gives back exactly those
  commits.
- `src/printer.rs`: `pretty_print`, `format_timestamp`, `civil_from_days`.
- `src/calendar.rs`: the proleptic Gregorian calendar, and the proof that
  every day number has exactly one date.
- `src/text.rs`, `src/number.rs`: characters, white space, decimal numbers.
- `src/model.rs`: `Commit` and `Signature`.
- `app/main.rs`: the command line program: reads lines from a file or stdin
  and prints the commits.
