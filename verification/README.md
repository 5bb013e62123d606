# nix_reduce

A verified library for the syntax trees and parsers of a Nix expression
simplifier.

- `green`: immutable green syntax trees. Each node records the length of the
  text it covers; printing a node gives its tokens' texts in order.
- `red`: red nodes over a green tree, which know their parent and where their
  text starts; replacing a child rebuilds the path to a new root.
- `parser`, `combinators`, `repetition`: parser combinators in the
  list-of-successes style. A parser yields every parse of its input, each a
  value with the input it leaves. Symbols are compared through `SymbolEq`,
  which characters, integers, `&str` and `String` implement.
- `kinds`, `types`: syntax kinds and the tokens of the Nix language.

`app/` holds the program's entry point and the literal types that carry
floats.
