# lunas

The front end of the Lunas single-file-component framework as a verified
library: a `.lunas` file bundles an `html:` template, a `style:` block, a
`script:` block and `@` directives, and this crate parses and analyses them.
Verus proves every function in `src/` free of panics and overflow, and
proves the contracts the public functions (and most private ones) carry.
The exceptions are the few items marked `external_body`: thin wrappers
around calls into std and the SWC parser, whose contracts are taken on
trust.

## Layout

| module | what it holds |
|---|---|
| `span` | byte offsets and ranges, slicing on character boundaries |
| `diagnostic` | severities and diagnostics |
| `text` | character-level helpers (whitespace, trimming, search) |
| `line_index` | line and column positions |
| `html` | the HTML tokenizer (`lexer`), the tree builder (`parser`), moving a tree's ranges (`rebase`), and the proofs that every range the builder makes slices the source (`sound`) and nests (`nesting`) |
| `sfc` | the block structure of a file (`split`), block bodies and directives (`lower`), the lowering of a file's items and `parse` (`file`, `split`), `${…}` interpolation scanning (`scan`) and `:for` headers (`for_parser`) |
| `script` | JavaScript analysis over the SWC syntax tree: declared, referenced, free and assigned identifiers, and what each function mutates |
| `model` | reactive variables and the resolved component |
| `emit` | the JavaScript emitter: string and template literals, DOM paths, attribute statements, generated names, reactive rewriting of expressions (`rewrite`) and of whole scripts (`script`), the emitter's state with its update, anchor, listener and `:if` cascade writers (`emitter`), its set-up for a component: deep-mutation hint, helper aliases, child imports (`setup`), template attributes with their wiring, text slots, child-component and dynamic-component mounts (`bindings`), the control-flow blocks `<teleport>`, `:if` cascades and keyed `:for` lists (`blocks`), and dedenting |

`app/` holds the serde-facing copies of the library's types and the JSON
rendering of diagnostics. `tests/` exercises the library on concrete inputs.
