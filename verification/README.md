# cme_compiler

Verified front-end pieces of the Checkmate compiler, written in Verus.

- `mods` — the `mod.toml` manifest reader, the mapping of a mod's `src/`
  tree onto `self`-rooted module paths, loading, and the assembly of module
  sources into one program text with per-module ranges (and the attribution
  of spans back to the module that owns them).
- `mega::profile` — lexical profiles (skip sets, comment and string forms),
  their extraction from grammar bodies, and delimiter balancing that honors
  comments, strings and string islands.
- `mega::scan` — detection of `grammar` declarations, `magic` declarations
  and `magic(name) { … }` invocations in raw source text, with region
  normalization; `mega::scan_proofs` proves every scan result anchored in
  the scanned text.
- `mega::ctxexpr` — the compile-time condition language (comparisons that
  do not chain, `&&` and `||` that do not mix without parentheses, `!`,
  `present`, `some`/`all` quantifiers, capture paths with accessors, calls).
- `mega::pattern` — the pattern-text parser (literals, classes, fragments,
  groups, rule references with `with context`, `each`, `oneof`, `until`,
  `indent`, `where`, `label`, …) and `rule` declarations, with the rule that
  `indent` may not directly follow `eol`.
- `mega::grammars` — compiling scanned grammar declarations into rule sets
  (each body's `rule` declarations in order, the default `"` string form,
  and the default grammar that hosts inline entry patterns), and the
  profile checks that reject line-mode machinery (`eol`, `line`, `indent`)
  in flow grammars or inside `soft`, and `soft` in flow grammars; then
  compiling `magic` declarations: pattern and template parsed, code
  captures with nothing after them rejected, and the entry resolved to a
  grammar rule (bound to a name) or an inline pattern on the default
  grammar.
- `mega::template` — the template-body parser (splices, `$"…{$hole}…"`
  interpolations, `[each …]`, `[when … else …]`, `match` arms, `let`,
  `require`, `@` and `cm.…` calls; bracket balance of the plain text) and
  Checkmate string escaping.
- `mega::matcher`, `mega::expand` — the parts of the
  expansion pass that stand on their own: match input with line/column
  maps, provenance comments, the expansion stack, the decision of each
  fixpoint round (done, past the depth cap, or which innermost invocations
  to expand), span edits, the declaration strip and the declaration-order rule.
- `parser` — the token-level layer of the parser: the token cursor, the
  newline-significance pass, and interpolation-chunk unescaping.

Positions are character offsets into the text they index.

`app/` holds the file-system side of mod loading: it walks a mod directory
into the library's tree model, reads files, and calls the library.
