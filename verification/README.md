# palimpsest

`pal` reads a git repository's entire history and builds a queryable index of
how its files are related: live structural edges, evolutionary coupling, and
ghost edges (imports that were severed while the files kept changing together).

This is a Verus project. The library under `src/` holds the logic, with every
function specified and proved; `app/` is the ordinary Rust around it.

## Layout

- `src/` the verified library
  - `text`, `names`, `order`, `postings`, `tables`, `open_edges`, `time`: texts,
    ordered sets, stable orders, lookups, dates
  - `lang`, `grammar`, `pattern`, `extract`, `rust_use`, `coffee`, `markdown`,
    `parsed`: what a file imports, defines and mentions. `extract::laws` proves
    that every parse result is in order and within its limits
  - `vcs`, `changes`, `classify`, `config`, `index`: what a commit changes and
    how it counts
  - `resolve`: the resolution ladder, most exact first; ambiguity drops the edge
  - `walk`: the walk through history. `walk::laws` proves that identities stay
    apart and survive renames and returns, `walk::rest` that deleted files are at
    rest, `walk::tree` that the live files stand at the paths of each tree,
    `walk::paths` and `walk::resume` that what is written to the store is what
    the walk knows and what it can be taken up from again
  - `rows`, `query`, `graph`, `bfs`: an index in memory
  - `cochange`, `ghosts`: which files changed together, and which severed edges
    may be ghosts
  - `blast`, `listing`, `why`, `path_query`, `timeline`, `hotspots`, `stats`,
    `export`, `viz`: the queries
  - `human`, `cli`: lines for a terminal, exit codes, caveats
- `tests/` scenarios, among them a small repository walked from its first commit
  to its last
- `app/` the `pal` program: arguments, git2, SQLite, JSON, and the metrics, which
  are floating point

## What is trusted

Calls into `tree-sitter` and `regex` stand behind a few functions in
`grammar` and `pattern`. Their results are named, not described: the library is
proved for whatever the grammars and patterns give. `text` trusts
`String::push` and `String::from_utf8_lossy`.
