# cosense_core

Converts Cosense (Scrapbox) notation to Markdown, with every step verified by
Verus.

- `src/text.rs`: character-level text operations (`trim`, `lines`, `split`,
  `join`, ...) on `Seq<char>`, each with its executable counterpart.
- `src/patterns.rs`: the two regular expressions, run by the `regex` crate,
  with what each match is for its pattern.
- `src/ast.rs`: the block and inline trees and their views.
- `src/inline.rs`: classification of `[...]` spans and bare URLs.
- `src/parser.rs`: tokenizer and block parser; the detection heuristic.
- `src/render_markdown.rs`: the Markdown renderer.
- `src/laws.rs`: properties of the whole converter.
- `app/`: the wasm-bindgen and PyO3 frontends.
