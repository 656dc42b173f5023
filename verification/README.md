# byte

The front-end core of a small indentation-based language, written in Verus.

- `src/` is the verified library: source spans and cursors, the symbol trie
  and the scanner with its comment, string and number matchers, the segment
  parser (lines, indented blocks, bracket groups), integer values and builtin
  types, name bindings and scopes, node replacement, text renderings, and a
  small evaluator for `print` statements and single-value lines. Every
  function has a contract, and the laws of the library are stated in those
  contracts or as public proof functions.
- `tests/` exercises the library on concrete inputs.
- `app/` holds what the library leaves to the process: the global string
  store, file input, timing, runtime output, the resolution loop over
  operators, and the runtime values that carry floating point numbers.
