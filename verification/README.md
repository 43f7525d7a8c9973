# codegraide

A library for looking at a code base: which files it holds and what kind
they are, how many lines of code, comments and blanks each has, how its
modules depend on each other, where those dependencies form cycles and which
relations to cut to break them, what a module reaches, how well its
callables are documented, and whether a change needs a human look.

The library is written in Verus. Each public function carries a contract
that states what it returns, and Verus proves the code against it.

## Layout

- `src/` — the verified library.
  - `report.rs`, `paths.rs`, `text.rs`, `order.rs`: file categories, path
    texts, text helpers and the key order used for sorting.
  - `lines.rs`: physical line counts per file and per language.
  - `config.rs`, `config_file.rs`: category rules, their checks and
    compilation, the configuration version and how a configuration is laid
    over the defaults.
  - `inventory.rs`: the repository inventory built from classified files.
  - `analyzer.rs`, `dependencies.rs`: the analyzer and resolver registries
    and the facts they report.
  - `graph.rs`: the dependency graph, its metrics and strongly connected
    components.
  - `cycles.rs`: cycle explanations — a shortest closed walk through each
    cyclic component and the relations to cut.
  - `query.rs`: shortest paths and closures over the dependency graph.
  - `hierarchy.rs`, `output.rs`, `render.rs`: grouping, filtered views and
    Mermaid and DOT text.
  - `documentation.rs`, `review.rs`, `analysis.rs`: documentation coverage,
    the review policy and its evaluation.
  - `snapshot.rs`, `context.rs`, `excerpt.rs`: snapshot references, review
    context text and source excerpts.
  - `calls.rs`: call-graph identities, symbol selectors, shortest call
    paths, caller and callee closures, and Mermaid and DOT text of call
    graphs.
  - `selection.rs`, `path_sets.rs`: file selection by pattern and the
    joining of ignored files that were asked for.
  - `json_output.rs`, `json_report.rs`, `inventory_report.rs`,
    `analysis_report.rs`, `html_output.rs`: the records that the JSON and
    HTML reports are written from.
- `tests/` — tests run against the compiled library.
- `app/` — the parts that touch the file system, Git and JSON: walking a
  repository, reading configuration and policy files, and running the
  analyzers over files read from disk.
