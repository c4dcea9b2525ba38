# aster

A trace-driven cache hierarchy simulator (L1I, L1D, L2, LLC) that reads
ChampSim binary instruction traces, with LRU and SRRIP replacement and a
stream-buffer prefetcher.

The library in `src/` is written in Verus. Its functions carry
`requires`/`ensures` contracts that Verus proves, except a few small
wrappers around the standard library (reading bytes, path and file checks,
the text of I/O errors), whose contracts are trusted. The properties that span
several calls (a second access to a block hits, a fetch leaves the data cache
alone, a written-back block leaves its cache, a trace record decodes back to
the instruction it encodes, ...) are stated and proved as public proof
functions beside the code they speak of.

Layout:

- `src/geometry.rs`, `src/text.rs`, `src/seqs.rs`: address arithmetic, text
  helpers and sequence lemmas used by the rest.
- `src/trace_reader.rs`: the ChampSim record format and the trace reader.
- `src/policy.rs`, `src/policies/`: replacement policies (LRU, SRRIP).
- `src/prefetch.rs`, `src/prefetchers/`: the stream-buffer prefetcher.
- `src/cache.rs`: a set-associative cache and the four-level hierarchy.
- `src/config.rs`, `src/reporter.rs`, `src/stats.rs`, `src/simulator.rs`:
  configuration checks, summaries, statistics and the step function of a run.
- `app/`: the command line, TOML and gzip handling, printing, and the loop
  that feeds trace records to the simulator.
- `tests/`: tests run against the compiled library.
