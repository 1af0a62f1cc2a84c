# wal_rust

A verified library for reading and querying digital waveforms (VCD, FST and
FSDB caches), with a thin command-line front end.

Layout:

- `src/` — the library, verified with Verus:
  - `fst/` — FST varints, blocks, the writer, hierarchy parsing and the reader;
  - `vcd/` — the line reader, the VCD parser and value/timescale conversions;
  - `trace/` — name storage, FSDB cache codecs, column caches, the VCD load
    pipeline (`vcd_index`: header pass, `$dumpvars` snapshot, chunk scan and
    merge), the query engine (`vcd_query`: which waveform answers a name,
    the index space, change lists and find conditions, value at a time),
    the VCD index cache format (`vcd_cache`) and the decisions of an FSDB
    value scan (`fsdb_scan`);
  - `cli.rs`, `text.rs`, `bytes.rs` — argument resolution and byte/text helpers.
- `tests/` — the tests, run against the compiled library.
- `app/` — `main`, argument parsing, reading waveform files and the
  dynamic FSDB reader probe.
