# zed-gherkin

Tooling for Gherkin / Cucumber `.feature` files, written in Verus:

- a formatter (re-indentation, table alignment, tag normalisation,
  blank-line collapsing, doc-strings left alone);
- Cucumber expressions (`{int}`, `{string}`, `(s)`, `apple/pear`, …) turned
  into anchored regular expressions;
- a step index of the step calls in `.feature` files and the step
  definitions in Python (`behave`, `pytest-bdd`) and JavaScript/TypeScript
  (`@cucumber/cucumber`) sources;
- the go-to-definition / find-references logic of a language server.

## Layout

- `src/` — the verified library.
  - `text.rs`: characters, whitespace, trimming, splitting, UTF-8 offsets.
  - `classify.rs`: what kind of Gherkin line a line is.
  - `table.rs`: table cells, the number syntax, column alignment.
  - `formatter.rs`: the formatter; `formatted` states its exact result.
  - `expression.rs`: Cucumber expressions; `regex_source` states the pattern.
  - `indexer.rs`: the line grammars of step calls and definitions, the index.
  - `server.rs`: the server state, its answers to requests and notifications.
  - `laws.rs`: properties proved for all inputs (blank lines collapse,
    doc-strings are kept, the output ends with one newline, table pipes line
    up, dropping a file undoes scanning it, rescanning is idempotent, …).
- `tests/` — tests of the library.
- `app/` — the programs: the `gherkin-fmt` command, the `gherkin-lsp`
  language server (protocol and file I/O), the workspace walk, and the Zed
  extension.

The `regex` and `regex-syntax` crates compile and match regular expressions
and classify word characters; `std::path` compares paths and finds
extensions. These calls sit behind a few trusted functions whose contracts
name their results.
