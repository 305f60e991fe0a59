# kime_compat

The compatibility harness for kime, as a library verified with Verus, and the program around it.

- `src/text.rs`: whitespace, trimming, integer parsing as the standard library parses, decimal
  formatting, and the few standard-library calls the rules rest on.
- `src/json.rs`: a model of `serde_json` values (ordered objects, `serde_json`'s equality, compact
  text, and what a value is apart from the memory that holds it), with what the rules read of each number's `f64` value given by the caller.
- `src/contract.rs`: the response rules clients depend on, and laws about what they report.
- `src/live.rs`: HTTP/1.1 response framing (head, status, chunked bodies), the server address, the
  `GET /v1/models` shape, and the decisions of a live run.
- `src/fixtures.rs`: what the harness makes of the committed fixtures, the surfaces table, and the
  requests a live run sends: each fixture's request as `jev-latest`, then each of them about each
  text of a corpus.
- `app/`: the command line, file and network I/O, and the floating-point parts of the rules.
- `tests/`: tests of the library.
