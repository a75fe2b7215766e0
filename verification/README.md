# code2graph

Language-neutral code-graph facts from source files, with the extraction and
evaluation logic verified in Verus.

Each supported language (Bash, C, C++, Go, HCL, Java, Kotlin, PHP, Python,
Ruby, Rust, Solidity) is parsed with its tree-sitter grammar; the parse is read
back node by node into a `SyntaxTree` of plain values, and a per-language walk
turns it into `FileFacts`: definitions with SCIP identities, references, a
lexical scope tree and bindings. Every walk states, over a specification of the
tree, exactly which symbols, references, scopes and bindings it yields.
Languages detected by extension whose grammar is not bundled here are refused
with an `UnsupportedLanguage` error. Some walks of such languages are provided
over a `SyntaxTree` built from their grammar, without one being bundled: for
Dart the import, scope and binding walks (`extract/dart.rs`), for
Objective-C the inheritance walk (`extract/objc.rs`), and for PowerShell the
import classification (`extract/powershell.rs`).

SCIP identities are written `codegraph . . . <descriptors>`: scheme, then the
empty manager, package name and version, each an empty field shown as `.`.

The evaluation harness loads test cases (sources plus `expected.edges` or
`oracle.edges` manifests), scores a resolved `CodeGraph` against them and
aggregates scorecards per language and over a corpus. A case's files are put
in path order (component by component) and a corpus's cases in (language, name) order by the library
itself; the application only walks directories and reads files. Oracle pairs are
derived from SCIP indexes (decoded by the `scip` crate) and written as
`oracle.edges` manifests that read back as the same pairs.

Layout:

- `src/` — the verified library.
  - `extract/ts.rs` — the boundary to tree-sitter.
  - `extract/tree.rs` — the syntax tree as plain values, and its specification.
  - `extract/<language>.rs` — one extractor per language.
  - `extract/scope.rs`, `extract/support.rs` — scopes, bindings and the shared
    vocabulary of the extractor contracts.
  - `eval/` — manifest parsing and writing, scoring, aggregation, and SCIP
    oracle pairs.
  - Trusted items (contracts believed, not proved) sit in `extract/ts.rs`
    (tree-sitter), `eval/oracle.rs` (the SCIP decoder) and `text.rs` (a few
    `std` character and string functions).
- `tests/` — tests run against the compiled library.
- `app/` — directory walking, file reading and writing, error display and
  report printing.
