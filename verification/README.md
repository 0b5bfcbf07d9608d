# Front end of a small compiler, verified with Verus

The library splits source text into tokens and builds syntax-tree data from
the tokens and the decisions a parser took on them. Every function in `src/`
carries a contract that Verus proves; nothing in `src/` is trusted.

## Layout

- `src/data.rs`: dynamic values (`Data`) and their mathematical view. A mapping
  is an insertion-ordered list of pairs with distinct keys: `insert` refuses a
  present key, `overwrite` replaces in place or appends, `merge` overwrites
  the other mapping's pairs in order. Laws: a read gives back the last write,
  writes leave other keys alone, a merge reads as the other mapping where it
  has the key.
- `src/error.rs`: the errors reported.
- `src/number.rs`: reading number tokens. Integers follow Rust's integer
  syntax; a number with a point becomes an exact `Decimal`.
- `src/position.rs`: runs of source on one line, joined per line by
  `Position::range` (a second join changes nothing).
- `src/stack.rs`: the source being read, with line and column bookkeeping and
  the characters and sequences that end a word.
- `src/token.rs`, `src/registry.rs`: tokens and what the tokenizers found.
- `src/character.rs`: the character-literal tokenizer, with escape sequences
  tried longest first.
- `src/tokenize.rs`: the tokenizing loop and `resolve`, which decides each
  point of the source from the outcomes of the tokenizers tried there in
  order. Of the seven kinds of tokenizer that compiler settings can configure
  (comment, number, string, character, operator, keyword, identifier), this
  library provides the character tokenizer only; settings for any other are
  refused with `UnavailableTokenizer`, in their place in that order.
- `src/builder.rs`: the template builder. Its meaning is given by the spec
  functions `spec_build`, `spec_piece`, `spec_list`, `spec_items`, `spec_fold`;
  a malformed decision or token stream, which no parser gives and from
  which no build can go on, is answered with an error (`MissingDecision`,
  `UnexpectedDecision`, `MissingTemplate`, `MissingFlavor`, `MissingToken`,
  `UnexpectedToken`, `StalledList`) rather than by stopping the program.
  Laws beside the spec: `List` and `Confirmed` pieces build alike; a build
  returns its pieces' runs joined by line; without merges, the keys under
  `entries` are the keyed pieces' keys in order.
- `src/signature.rs`: the instruction set.
- `app/lib.rs`: the floating-point value of a `Decimal`, and entry points that
  check the library's preconditions.
- `tests/`: tests on concrete values.
