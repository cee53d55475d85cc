# unity_asset_core

A verified library for Unity's text YAML assets (scenes, prefabs, assets):
a lossless parser whose spans index the caller's bytes, identity and
reference validation, a three-way change catalog, and a renderer that applies
merge decisions to the target snapshot without touching unselected bytes.

Every function under `src/` carries a Verus contract and is proved against
it. The parser's contract covers the tree it returns: spans index the
caller's bytes, every key is the decoding of its key span, every scalar has
the style its text shows, and children nest inside their parents in text
order; documents come in text order; a text is refused exactly when a
pre-check or the structural reading of a document fails; and the parser
reports an error exactly when a key or file ID repeats, each report standing
at a repeated occurrence. Calls into outside crates (BLAKE3 hashing, serde_json
string escaping and pair parsing, serde_yaml string decoding, UTF-8 decoding)
stand behind small trusted wrappers whose contracts name what the call
returns.

Layout:

- `src/` — the library. `parser`, `lexer`, `lines`, `asset` parse; `validation`
  and `ownership` check identities and references; `changes` and `merge` build
  the change catalog; `decisions`, `render`, `json` and `indent` apply
  decisions; `aliases` renames proven field aliases; `packed` is the compact
  integer-array codec; `type_names` holds the built-in type tables;
  `scalars` reads a scalar node as one string; `prefab` holds the layer
  record of Prefab projections.
- `tests/` — tests of the library on concrete snapshots.
- `app/` — serde forms of the library's types for the JSON boundary, and the
  parts whose value model is floating-point JSON: the float elements of the
  compact-array codec, inspection and editing through JSON values (`edit`),
  logical property addressing (`semantic`), Prefab projection (`prefab`),
  graph authoring (`authoring`) and Inspector value adapters
  (`property_values`). They drive the library's parser, pointer rules,
  splicing and merge renderer.
