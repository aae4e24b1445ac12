//! A small calculator front end: a lexer for arithmetic expressions, a
//! recursive-descent parser building an expression tree, and a code
//! generator that renders the tree as a postfix (stack-machine) program.

pub mod dc_gen;
pub mod numeral;
pub mod parser;
pub mod text;
pub mod tokenizer;
