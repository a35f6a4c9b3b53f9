# Rastraq library

Rastraq is a personal daily radar for newly published technical information:
items are submitted, summarised by a deterministic mock provider, ranked for
the previous local day, frozen into a fixed daily edition, and feedback grows
the reader's interest profile.

The decisions live in `src/`, verified with Verus:

- `text`: splitting text, Unicode white space, substring search, decimal and
  hexadecimal rendering.
- `digest`: the SHA-256 content hash of submitted items.
- `llm`: the deterministic mock provider's summary, key point and embedding.
- `ranking`: the interest profile, integer interest signals, and the order in
  which scored candidates enter an edition.
- `time`: calendar days, the previous local day in a time zone, and the
  candidates published on a local day.
- `edition`: writing an edition's places once.
- `keywords`: keyword tokens of titles and learning from feedback.

`app/` is the HTTP server around the library: routing, SQLite storage, JSON,
and the floating-point parts of scores and embeddings.
