# rnd — React Native Directory CLI, verified core

`rnd` queries the React Native Directory and audits React Native projects from
the terminal. The selection, ranking, matching and scanning logic lives in a
library whose behaviour is stated in Verus contracts and proved.

## Layout

- `src/` — the verified library
  - `api.rs` — the package model and its accessors
  - `text.rs`, `stopwords.rs` — string helpers and word lists
  - `rank.rs` — stable descending sort by a two-part key, with its laws
  - `similarity.rs` — topic, name and description tokens
  - `candidates.rs` — the four-tier alternatives algorithm and its invariants
  - `commands.rs` — search, trending, discover, list, info, compare, alternatives
  - `dates.rs` — `YYYY-MM-DDTHH:MM:SS` timestamps to Unix seconds
  - `scanner.rs` — import statements in source text, package names, locations
  - `analyze.rs` — the `package.json` dependency lists, flags and in-project
    alternatives for a project's dependencies
  - `output.rs` — package rows, the details view and the analysis report text
  - `env.rs`, `cache.rs`, `ui.rs` — output mode, exit code, cache decisions
    and terminal styling
- `app/` — the command-line program: argument parsing, network and cache I/O,
  directory walking, JSON and printing
- `tests/` — tests of the library

Floating-point values of the directory (score, log of stars) reach the library
as integers in millionths; candidate ranks are compared as exact rationals.
Counts shown with one decimal (`1.2k`) are formatted by the program and handed
to the library as text.
