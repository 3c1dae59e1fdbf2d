# topcoat_css

Scoped CSS modules for Topcoat components. A build helper scans Rust sources for
`css!` invocations, compiles each body as a CSS module with class names scoped
by a hash, and writes a manifest; the `css!` macro finds its invocation in that
manifest and expands to a value with one `&'static str` field per export.

## Layout

- `src/` — the verified library (Verus):
  - `text.rs` — character helpers: white space, decimal and hex text, code point order.
  - `exports.rs` — the exports of one CSS module, kept sorted by original name.
  - `compiler.rs` — Rust field names of exports, composed class lists, the field table.
  - `naming.rs` — the hashed naming pattern of scoped classes.
  - `validate.rs` — rules and URLs that a combined, relocated stylesheet rejects.
  - `tokens.rs` — token streams as the library reasons about them; fingerprints and
    CSS text rebuilt from tokens.
  - `scanner.rs` — collection of invocations from source text; line and column
    positions as character and byte offsets.
  - `sources.rs` — which entries of a source tree are walked, scanned or refused.
  - `protocol.rs` — the manifest, how a macro invocation finds its record, and the
    plan of its expansion.
- `app/` — the parts that read files and the environment, run Lightning CSS,
  (de)serialise the manifest and emit tokens from the procedural macros.
- `tests/` — tests of the library.
