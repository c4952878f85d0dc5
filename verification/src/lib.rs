//! Parsing for a calculator and for grammars written in a small EBNF
//! notation.
//!
//! - [`ast`]: arithmetic expressions, their tokens, a parser by operator
//!   priority, an evaluator on `i32` and a drawing of the tree;
//! - [`grammar`]: grammars, read from text;
//! - [`lexer`]: tokens of a text by the terminals of a grammar;
//! - [`cst`]: concrete syntax trees, built by walking the rules of a grammar;
//! - [`shell`]: the decisions of a small shell;
//! - [`text`]: characters, strings and a character stream.
pub mod ast;
pub mod cst;
pub mod grammar;
pub mod lexer;
pub mod shell;
pub mod text;
