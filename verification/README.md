# parsm

`parsm` (parse 'em) detects and parses JSON, CSV, YAML, TOML, logfmt and
plain text, and applies one expression language for filtering and
templating. The library is written in Verus: its functions carry
`requires`/`ensures` contracts over mathematical models (`Seq`, `Map`,
`int`) and are proved against them; calls into the serde crates, csv and
std's Unicode tables stand behind trusted wrappers whose contracts name
their results.

Layout:

- `src/detect.rs`, `src/format_detector.rs`: format detection over the
  first lines of the input, with the precedence of formats.
- `src/lines.rs`, `src/records.rs`, `src/json_stream.rs`,
  `src/documents.rs`, `src/csv_parser.rs`, `src/parse.rs`: numbered lines
  and the per-format record readers; JSON chunks and YAML/TOML documents
  are parsed with the serde crates behind trusted wrappers whose results
  are named in the contracts.
- `src/serde_values.rs`, `src/json_text.rs`: the library's JSON values and
  serde_json's, one for one, and JSON text as serde_json writes it.
- `src/dsl/`: the expression language (field selectors, filters,
  templates) and its fallback strategies.
- `src/filter.rs`, `src/number.rs`, `src/value.rs`, `src/record.rs`:
  values, field paths, filter evaluation and template rendering.
- `src/pipeline.rs`: what is written for each record.
- `app/main.rs`: the command line (argument handling, reading files and
  standard input, printing).
