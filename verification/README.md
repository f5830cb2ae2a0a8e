# flowspec

The analysis core of Flowspec, a static analyzer that traces how data and
calls flow through a codebase, written in Verus: every function of the
library carries a contract that Verus proves.

## Layout

- `src/ir.rs`, `src/graph.rs` — symbols, references and the analysis
  graph (edges, callers and callees, connected components).
- `src/diagnostic.rs` — findings: pattern, severity, confidence, evidence.
- `src/extraction.rs` — manifest data drawn from the graph: calls and
  callers, visibility, module roles, the module dependency graph.
- `src/flow.rs` — depth-first tracing of call paths, with cycle marking
  and a depth limit.
- `src/conversion.rs` — findings as manifest records.
- `src/patterns/` — one detector per diagnostic pattern, the shared
  exclusion rules, and the registry (`run_patterns`, `run_all_patterns`)
  that runs the detectors, filters their findings and numbers them.
- `src/path.rs` — paths as sequences of components.
- `src/double.rs` — an integer model of the binary64 quotient of two
  counts, its rounding and its decimal forms.
- `src/text.rs` — character-level string helpers used by the above.
- `app/` — serializable mirrors of the report types.

Each detector's result is specified exactly by a spec function of the
graph (for example `circular_findings`, `partial_wirings`). Properties
that span several calls or hold of every result are stated as proof
functions named `law_*`: the registry's numbering, filtering and the
monotonicity of its filters; for the data-dead-end, orphan,
layer-violation, phantom-dependency, stale-reference, partial-wiring,
contract-mismatch, asymmetric-handling, duplication and migration
detectors, exactly which symbols or pairs are reported (each once); the
shape of traced paths from any point of the exploration; the module
cycles reported, once up to rotation, and found exactly when the module
graph has one; the module dependency pairs, their order, weights and
direction; the version suffix round trip; callers and callees mirroring
each other, by id and by qualified name; that a higher minimum severity
keeps exactly the severity-filtered findings, in order; that arity groups
are disjoint and drawn from their members; and lossless conversion.

Paths use `/` as separator. Stripping the project root, the file name
that marks a parent module, extensions, parent directories and the order
of modules follow the path's components (`src/path.rs`), so `src/./a.py` relative to `src` is
`a.py`. Two files are the same file when they are spelled the same, so
each file is expected in one spelling.

Ratios (duplication's Jaccard similarity, partial wiring's wiring ratio)
are rounded to binary64 exactly as the division of two counts is, and
their percentages and two-decimal forms are those of that double
(`src/double.rs` models it on integers), so thresholds and the printed
figures match a float computation digit for digit.
