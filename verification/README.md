# domino

Which projects of a monorepo does a change affect? `domino` reads a git diff,
follows the changed symbols through the references between files, looks up who
uses a changed asset, adds implicit dependents, and lists the affected projects,
with the reasons where they are asked for.

The library in `src/` is written in Verus. Its contracts are proved, but for those
that describe code from elsewhere, which are believed: twelve wrappers, around
`regex` (in `pattern`), `rustc-hash` (in `fx`) and the lossy reading of UTF-8 (in
`text`), and the assumed specifications of two functions of std. The doc comment of
each says what it claims.

- `git`: which git commands to run, what their outcomes mean, and how a diff is
  read. `pattern` holds the regular expressions behind it.
- `index`: what is known of a workspace, as tables.
- `trace`, `propagate`: following a changed symbol; `reach` proves that exactly
  the symbols that a chain of uses leads to are followed.
- `state`, `fx`: the affected projects so far, in the hash collections of
  `rustc-hash`.
- `affected`: from changed files to the result; `laws` states what holds of every
  result.
- `order`: the order of names and reasons in a result.
- `resolve`: options for the module resolver, and the rule for relative imports.
- `workspace`: which tool manages a workspace, and what a Rush workspace lists.
- `path`, `text`, `types`, `error`: the values all of this works on.

`app/` is the ordinary Rust around the library: it runs git, reads files, hands
options to the resolver and serialises results. The semantic analysis of source
code plugs in there.
