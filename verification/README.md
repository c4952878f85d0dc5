# Calculator and grammar parsing, verified

A library of parsers written in Verus. Every function is proved against its
contract, except four small wrappers in `src/text.rs` around std
(`char::is_alphabetic`, `char::is_alphanumeric`, `char::is_whitespace` and
`String::push`), whose contracts are trusted as std documents them:

- `src/ast.rs` — a calculator: a tokenizer, a parser that splits at the
  loosest operator outside parentheses (the last of them), an evaluator on
  `i32` that reports overflow and division by zero, and the lines of a drawing
  of the tree.
- `src/grammar.rs` — grammars written as `<name> ::= body;` rules, with
  terminals in double quotes, `{..}`, `[..]`, `(..)`, `|`, `NUMBER` and `ID`.
- `src/lexer.rs` — tokens of a text by the terminals of a grammar, the longest
  terminal first.
- `src/cst.rs` — concrete syntax trees, built by walking the rules, with the
  depth of the walk bounded.
- `src/shell.rs` — the prompt and output choice of a small shell.
- `src/text.rs` — characters, strings and a character stream.

`app/` holds the command line around it: `calc EXPR -p|-e`,
`grammar FILE EXPR` and `shell`.
