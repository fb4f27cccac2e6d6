//! The three steps in a row, from source text to JavaScript.

use crate::ast::StatementView;
use crate::generator::{generate_js, script_of};
use crate::lexer::{lexer, tokens_of};
use crate::outcome::{result_view, CompileError};
use crate::parser::{parser, statements_of};
use vstd::prelude::*;

verus! {

/// The statements of a source text: those that its tokens spell.
pub open spec fn program_of(source: Seq<char>) -> Result<Seq<StatementView>, CompileError> {
    match tokens_of(source) {
        Ok(tokens) => statements_of(tokens),
        Err(e) => Err(e),
    }
}

/// The JavaScript program for a source text. The text is scanned to its
/// end before its tokens are read, and its tokens are read to their end
/// before a line is written: a number that the scanner refuses is reported
/// before a statement that the parser refuses, wherever the two stand.
pub open spec fn compiled(source: Seq<char>) -> Result<Seq<char>, CompileError> {
    match program_of(source) {
        Ok(ast) => script_of(ast),
        Err(e) => Err(e),
    }
}

/// Compiles a source text to the JavaScript program that does the same.
pub fn compile(source: &str) -> (result: Result<String, CompileError>)
    ensures
        result_view(result) == compiled(source@),
{
    let tokens = match lexer(source) {
        Ok(tokens) => tokens,
        Err(e) => {
            return Err(e);
        },
    };
    let ast = match parser(tokens.as_slice()) {
        Ok(ast) => ast,
        Err(e) => {
            return Err(e);
        },
    };
    generate_js(&ast)
}

} // verus!
