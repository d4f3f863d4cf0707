# partial_json_fixer

Completes a JSON text that was cut off, for example while it streams in.

- `fix_json` works on the text: it tracks the open objects, arrays and
  strings, trims an incomplete trailing token (a lone `\`, a partial `\uXXXX`,
  `tru`, `12.`, a dangling `,`) and appends what closes the rest.
- `fix_json_parse` tokenizes and parses the text into a `JsonValue`, whose
  `to_string` writes it back.

The library in `src/` is verified with Verus:

- `fixer.rs`, `parser.rs`, `tokenizer.rs`, `value.rs`, `number.rs`, `chars.rs`:
  the code, each function with a contract that states its result.
- `grammar.rs`: JSON (RFC 8259) as a pushdown automaton.
- `offsets.rs`: byte offsets of characters in UTF-8, which token spans
  hold.
- `laws.rs`: that `fix_json` turns every prefix of a JSON text into a JSON
  text, returns a whole JSON text unchanged, is idempotent, and only cuts an
  incomplete end and appends closing characters; that a number is parsed
  and written back as it is; and that what `to_string` writes,
  `fix_json_parse` reads back as the same value, for every value whose text
  the tokenizer splits as it was written; that `fix_json_parse` reads every
  prefix of a JSON text that is not blank and not cut inside an escape, and
  `to_string` writes what it read as a JSON text; and that the tokens of a
  text lie in order, with only white space between them. `scan_proof.rs`, `run_lemmas.rs`,
  `close_proof.rs`, `repair_proof.rs`, `roundtrip_proof.rs`,
  `complete_proof.rs` and `prefix_parse_proof.rs` hold the lemmas behind
  them.

The library uses no outside crate. `app/` holds the Python bindings; pyo3,
which they need, is the only crate under `[dependencies]`; serde_json, under
`[dev-dependencies]`, serves the tests.
