# scientia

The verified core of a compiler for scientific models, written in Verus. Every function in
`src/` carries a contract that Verus proves; `app/` holds what Verus does not see
(serialization, `Display`, filesystem access).

## Layout

- `src/text.rs` — decimal rendering and parsing of integers, UTF-8 widths, list rendering.
- `src/source.rs` — source spans and structured diagnostics.
- `src/lexer.rs` — the lexer of scientific modules, with byte spans.
- `src/scientific.rs` — the authored vocabulary, canonical names, and error diagnostics;
  `src/scientific/model.rs` — the declarations of a model and its expressions;
  `src/scientific/coupling.rs` — the coupling graph derived from the names each residual uses;
  `src/scientific/parser.rs` — the reader of module text into declarations: each declaration
  form, expressions by binding power, unit expressions, and whole modules, each against a
  grammar stated over the tokens.
- `src/semantic.rs` — arena identities, shapes, frames, exact literals and typing rules.
- `src/tensor.rs` — tensor program vocabulary, scalar expressions, shapes and evaluation sites.
- `src/structure.rs`, `src/structure/integrand.rs` — operator structure: tangent merging, the
  signed row graph and its sign gauge, and integrand relabelling, sign splitting,
  equivalence up to commutativity, and degree.
- `src/structural.rs`, `src/structural/` — incidence systems, maximum matching (with a
  certificate of maximality), strongly connected components, and schedule compilation with
  greedy tearing.
- `src/requirements.rs`, `src/structured.rs`, `src/system.rs`, `src/system_operator.rs`,
  `src/verification.rs` — vocabulary and error types of later compilation stages.
- `tests/` — executable tests of the library.

## Scope

The crate holds the vocabulary that the compilation stages share and the algorithms listed
above, from module text to declarations. It does not contain the later stages: there is no
elaborator or type checker of expressions, no formatter, no module resolution, no tensor
lowering or quadrature-function compilation, no operator compilation, and no verification
profiles. Those stages need unit and quantity handling, floating-point printing and content
digests that the crate does not have.

## Checking

Verus verifies `src/lib.rs`; the tests run against the compiled library.
