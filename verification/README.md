# prose-lint

A fast, evidence-aware linter for formulaic prose, written in Verus so that
its scanning logic carries machine-checked contracts.

## Layout

- `src/` — the verified library.
  - `text.rs`, `words.rs`: UTF-8 decoding at byte offsets, white space, word
    characters and word boundaries.
  - `location.rs`: newline index and line/column lookup.
  - `markdown.rs`: masking of fenced code, inline code and URLs; paragraphs.
  - `model.rs`: profiles, severities, rules, findings, reports and the text
    rendering of a report.
  - `engines.rs`: the calls into `aho-corasick` and `regex`, each with the
    contract that the crate documents.
  - `findings.rs`: the candidates of each scan stage, the removal of repeated
    (rule, span) pairs, report order, and the laws of a report.
  - `scanner.rs`: compiling a scanner and scanning a document.
  - `chinese.rs`: structural leads for Chinese prose.
  - `confidence.rs`: counting `High` findings, and why showing the weak
    vocabulary matches leaves that count unchanged.
  - `cli.rs`: argument parsing and the file-selection rules of the tool.
- `app/` — the command-line program: file system, JSON, globbing, threads.
- `tests/` — tests of the library.

The rule catalogue (`data/rules.json`) and the vocabulary data set
(`data/excess-vocabulary.json`) are read by the program at run time, from the directory named by
`PROSE_LINT_DATA` or from `./data`; this repository does not ship them.
