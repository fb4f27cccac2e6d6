//! A small compiler: it reads a script of declarations and `print` calls,
//! and writes the JavaScript program that does the same.
//!
//! The work is done in three steps, each a function of its input alone:
//! [`lexer::lexer`] cuts the source text into tokens, [`parser::parser`] reads
//! the tokens as statements, and [`generator::generate_js`] writes one line of
//! JavaScript per statement. [`compile::compile`] is the three in a row.
//!
//! Each of them has a contract over a model of its input: [`lexer::tokens_of`],
//! [`parser::statements_of`] and [`generator::script_of`] say what the tokens,
//! the statements and the lines of every input are. The modules `scanning`,
//! `splicing`, `occurrences` and `laws` hold what is proved of these for
//! every input.

pub mod text;
pub mod decimal;
pub mod outcome;
pub mod token;
pub mod lexer;
pub mod ast;
pub mod parser;
pub mod template;
pub mod generator;
pub mod compile;
pub mod scanning;
pub mod splicing;
pub mod occurrences;
pub mod laws;
