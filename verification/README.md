# zeromatch

A glob matcher for paths in the style of picomatch: patterns are parsed, compiled to a
small bytecode program with fast paths for common shapes, and matched against bytes. The
library is written in Verus. Its functions carry contracts that Verus proves, with two
exceptions: `Mode::auto`, whose answer depends on the platform's path separator and which
states nothing of it, and the small trusted wrappers around `memchr` and a few `std` calls
(in `search.rs`, `regex_emit.rs` and `options.rs`), whose contracts are believed as written.

## Layout

- `src/options.rs`, `src/util.rs`, `src/search.rs`: options, byte classes, byte searches
  (the searches call `memchr` behind small trusted wrappers).
- `src/ast.rs`, `src/parse.rs`, `src/shift.rs`, `src/reparse.rs`: the pattern syntax tree,
  the parser and its specification, and how parsing behaves under a prefix and under other
  options.
- `src/compile.rs`, `src/layout.rs`: code emission, shape detection and the compiled program.
- `src/vm.rs`, `src/matcher.rs`: the backtracking matcher and the fast paths.
- `src/set.rs`: many patterns at once, with a quick rejection test.
- `src/scan.rs`, `src/regex_emit.rs`: `scan` and the regular-expression source.
- `src/api.rs`: the user-facing `isMatch`, `Glob`, `GlobSet`, `makeRe`.
- `src/lang.rs`: which strings a pattern denotes, written over its elements, and the proof
  that the matcher decides that language for patterns without groups.
- `src/agree.rs`: the proof that every fast path answers as the general matcher does on the
  same program.
- `src/laws.rs`, `src/congruence.rs`, `src/folding.rs`, `src/screen.rs`: properties of the
  library as a whole, proved over the same specifications.
- `app/`: the Node.js bindings (napi), which hand plain values to the library.
- `tests/`: tests run against the compiled library.
