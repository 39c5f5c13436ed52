# kvc

Key/value counts: a small journal format. Each line is a frame of
whitespace-separated tokens; a token is `key` or `key:count`; keys that a
keyword pattern (a regular expression, matched with the `regex` crate)
recognises are kept as strings under the keyword's name (by default `Date`
for `YYYY-MM-DD`); a token that starts with `#` ends the frame.

Layout:

- `src/` — the library, verified with Verus:
  - `text.rs`: whitespace tokens, splitting at `:`, the start sequence;
  - `pattern.rs`: keyword patterns and the one call into `regex`;
  - `frame.rs`: reading a line into keyword strings and count groups;
  - `tally.rs`: totals of the count groups, through a caller's function;
  - `table.rs`: the table of a stream of lines (one row per frame, one
    column per key), and its grid;
  - `stream.rs`: the records of a stream of lines.
- `app/` — `f32` totals, reading lines, and the `kvc-df` and `kvc-stream`
  commands.
- `tests/` — tests of the library.

What a count text means as a number is left to the caller, who passes a
function that totals the texts of one key; `app/` reads them as `f32` and
adds them up.
