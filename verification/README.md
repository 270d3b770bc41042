# grpctestify

The decision-making core of the `grpctestify` command-line tool for gRPC and
HTTP test files (`.gctf`), written in Verus. The functions in `src/` carry
contracts that Verus proves, except a handful of small `external_body`
wrappers around std calls (`char::is_alphanumeric`, `str::to_lowercase`,
`Path::strip_prefix`, `Path::extension`, `SystemTime::now`, collecting chars
into a `String`), whose contracts are taken as given.

## Layout

- `src/parser.rs` — the `.gctf` section parser: section headers, inline
  options, attribute lines and the preamble order.
- `src/text.rs`, `src/sort.rs`, `src/keyed.rs` — character-level text
  helpers, a stable sort of keyed blocks, and label-keyed tables.
- `src/commands/` — one module per command:
  - `fmt` — the formatter: section bodies, numeric literals, comments moved
    with the section below them, the canonical preamble order.
  - `fmt_stable` — formatting a key-value or BENCH section, or an EXTRACT
    line, a second time changes nothing.
  - `check`, `check_report`, `check_suite` — preamble order, validation
    hints, plugin names, diagnostic ordering and summaries, suite-level notes.
  - `bench`, `bench_config`, `bench_plan`, `bench_report`, `bench_compare`,
    `bench_aggregate` — option parsing, the BENCH section's configuration, concurrency sweeps, the bounded
    latency histogram and its read-outs, the metrics accumulator.
  - `call`, `call_line`, `grpcurl`, `health` — reproducible command lines
    (`grpctestify call`, `grpcurl`, `curl`) with shell quoting that reads back
    exactly.
  - `docs`, `docs_group`, `docs_group_title`, `docs_render`, `explain`, `graph`, `index_cmd` —
    which page each documented file goes on, the documentation pages, graphs
    and configuration listings.
- `app/` — file and host access, and the floating-point arithmetic (rates,
  percentile interpolation, comparisons), around the library.
- `tests/` — tests of the library on concrete values.

Properties that span several functions are stated and proved as `pub proof fn
lemma_*` items next to the functions they are about.
