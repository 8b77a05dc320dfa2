# mini-obs

A lightweight log store for edge devices. Log lines are collected from a file,
the standard input or a mock source, compressed by extracting templates, written
to segment files, and found again by time and keyword.

The library under `src/` is written in Verus: its data formats, algorithms and
state machines carry contracts that the verifier proves. It works on bytes, text
and values in memory. Files, threads and the clock are left to the program under
`app/`.

## Layout

* `src/shared/` – the storage format: headers, chunk tables, summaries, footers,
  manifests, the write-ahead log, checksums, filters and names.
* `src/agent/template.rs`, `tokens.rs`, `typed.rs`, `extract.rs`, `parts.rs`,
  `records.rs`, `xor.rs` – templates, typed parameters and their encodings.
* `src/agent/codec.rs`, `json.rs`, `json_line.rs`, `batch_text.rs`,
  `compressor.rs` – compressed batches and log lines as JSON.
* `src/agent/chunk_*.rs`, `segment_*.rs` – chunks and segment files: planning,
  building, reading and searching them.
* `src/agent/index*.rs`, `keywords.rs`, `manifest_file.rs` – the index.
* `src/agent/storage*.rs` – the storage engine.
* `src/agent/collector.rs`, `tail.rs`, `mock.rs`, `handle.rs` and `src/cli.rs` –
  making log lines of text lines, following files, and the command line.
* `app/` – the `mini-obs` program.

Modules whose names end in `_law` hold what the parts promise together, such as
that a written segment gives back its lines, that lines in the write-ahead log
survive a crash, or that the index denies no keyword that a written line holds.

## Trust

Calls into `zstd`, `serde_json`, `bincode` and a few functions of the standard
library stand behind small functions whose contracts are believed; each says in
its comment what it claims.
