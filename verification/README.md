# ao_analysis

A dashboard for fandom statistics of an archive of fan works. At startup the
server reads one `_CLEAN.jsonl` file (listings) and optionally one
`_HISTORIES.jsonl` file (read histories) per fandom from `assets/data`,
merges the histories into the listings, indexes them and computes per-fandom
statistics; the pages then draw charts of the featured fandom.

## Layout

- `src/` — the library, written in Verus with its contracts proved:
  - `models/` — listings, stats, chapter counts and read histories, and their
    construction from raw records;
  - `state/` — the application state, the per-fandom index (`index.rs`),
    statistics (`stats.rs`) and the loading logic (`loader.rs`: grouping data
    files by fandom, splitting JSON-lines content, merging histories);
  - `charts.rs` — chart series, labels, number formatting and summaries;
  - `calendar.rs` — UTC year/month facts taken from `chrono`;
  - `text.rs` — trimming, decimal numbers and lexicographic order.
- `app/` — the server around the library: file and directory access, JSON and
  TOML decoding, logging, the Leptos pages and SVG chart components, and the
  axum entry point.
- `tests/` — tests of the library on concrete values.
