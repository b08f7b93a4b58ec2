# clux

CLUX is a small toolkit around a selective state-space model runtime. This
crate holds its logic, verified with Verus:

- `lexer`, `token`, `parser`, `ast`: the configuration DSL (`model NAME { ... }`
  and `training { ... }` blocks). `parse` is specified by `parse_source`, a
  spec function over the source bytes, including every error it reports.
- `ubc`: the Universal Bytecode map from characters to 16-bit ids.
- `words`, `trie`, `tokenizer`: a vocabulary trained from the prefixes, roots
  and suffixes of whitespace-separated words (roots and suffixes are marked
  in the trie), and greedy longest-match encoding against it.
- `decomposer`, `family`: splitting words into prefix, root and suffix, and
  interning the fragments.
- `corpus`: the binary corpus format (header framing and parsing, token bytes).
- `tensor`, `op`, `graph`: IR graphs and their static, 64-byte aligned arena.
- `arch`: choosing a SIMD target from the features the host reports.
- `schedule`: which training steps report progress.

`app/` is the command-line program: host probing, file I/O, and the
floating-point training simulation and kernels.
