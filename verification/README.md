# graphql_minify

The verified core of a GraphQL minifier.

- `src/block_string.rs`: lines of a block string, their dedenting and printing,
  with the laws of dedenting.
- `src/lexer.rs`: the check on string tokens and the scanner for the body of a
  block string, which reads, dedents and prints it in minified form.
- `src/roundtrip.rs`: the proof that a minified block string reads back as the
  block string it was made from.
- `src/minimizer.rs`: spacing of the minified parts of a template literal.
- `src/description.rs`: descriptions cleaned for comparison (quotes, `textwrap`
  dedenting, trimming).
- `src/vec_str.rs`: a byte buffer that always holds well-formed UTF-8.
- `src/text.rs`: byte and UTF-8 helpers.
- `app/`: the allocator arenas (`bumpalo`) and the token type that `logos`
  derives a lexer for, which hands block strings to the library.
