# routelint

A linter for URL route tables (`METHOD /path -> handler`, one per line),
written in Verus. It reports shadowed routes, duplicate routes, malformed
paths and unparsable lines.

- `src/text.rs` — the character model (white space, trimming, fields,
  lines, decimal digits) and the std calls it rests on.
- `src/parser.rs` — reading a route table; laws on line attribution and the
  shape of parsed routes.
- `src/lint.rs` — the rules, the order of findings, and the laws that a
  shadowed route can never match and that a later route only appends
  findings.
- `src/report.rs` — all findings of a table, rule filters, exit status,
  human and JSON output.
- `src/json.rs` — reading JSON back: the strings and the report document
  `render_json` writes decode to what they were made from.
- `src/cli.rs` — command line arguments.
- `app/main.rs` — reading the file or standard input and printing.
