# crit

An AST-based multi-language SAST and code-quality scanner built on
tree-sitter: YAML rule packs of pattern rules and taint rules (source →
sink, with sanitizers, identity matchers and cross-file summaries), mapped
to OWASP Top 10, CWE and NIST SP 800-53, with differential scans, a
persistent result cache, baselines and SARIF output.

## Layout

- `src/` — the `crit_core` library, written in Verus. Every function in it
  is verified against its contract; calls into outside crates (tree-sitter,
  blake3, regex, globset, owo-colors) go through a small set of trusted
  wrappers whose contracts are stated next to them.
  - `syntax`, `tables`: parsed files and query matches as plain tables;
    parsing a source text with tree-sitter, laying its nodes out and
    naming the captures of every compiled query.
  - `structure`, `binder`, `paths`: scopes, access paths, assignments,
    calls and name resolution built from those tables.
  - `state`, `solve`, `sinks`, `taint`, `extract`, `explain`: the taint
    engine — flow- and field-sensitive propagation, summaries, reports and
    explanations.
  - `linker`, `summary`: cross-file linking of function summaries.
  - `matcher`, `engine`, `findings`, `sorting`: pattern rules, per-file
    analysis, findings and fingerprints.
  - `model`, `rules`, `compiled`, `profile`, `languages`, `config`: rules,
    rule sets, taint profiles, the language registry and configuration.
  - `scanner`, `persist`, `diff`: job selection, the scan pipeline's
    decisions, cache and baseline, git path lists.
  - `output`, `sarif`, `coverage`: the human report, SARIF rule
    descriptors and taxonomy coverage.
- `app/` — the `crit` command line: argument parsing, file and process
  I/O, grammar loading, the parallel scan loop and JSON/SARIF
  serialization.
- `tests/` — tests of the library, including end-to-end runs of the engine
  on JavaScript parsed by tree-sitter.
