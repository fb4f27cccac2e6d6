//! The tokens into which a source text is cut.

use vstd::prelude::*;

verus! {

/// One lexical unit of a source text. A token does not say where it stood.
#[derive(Debug, PartialEq)]
pub enum Token {
    /// The word `var`.
    Var,
    /// The word `mut`.
    Mut,
    /// A run of letters that is none of `var`, `mut` and `print`.
    Identifier(String),
    /// The character `=`.
    Equals,
    /// What stood between two quotation marks, taken as it is.
    StringLiteral(String),
    /// The number that a run of digits writes.
    IntLiteral(i32),
    /// The character `;`.
    Semicolon,
    /// The word `print`.
    Print,
    /// The character `{`.
    OpenBrace,
    /// The character `}`.
    CloseBrace,
}

/// A token as contracts speak of it: texts are sequences of characters and
/// numbers are integers.
pub enum TokenView {
    Var,
    Mut,
    Identifier(Seq<char>),
    Equals,
    StringLiteral(Seq<char>),
    IntLiteral(int),
    Semicolon,
    Print,
    OpenBrace,
    CloseBrace,
}

impl DeepView for Token {
    type V = TokenView;

    open spec fn deep_view(&self) -> TokenView {
        match self {
            Token::Var => TokenView::Var,
            Token::Mut => TokenView::Mut,
            Token::Identifier(name) => TokenView::Identifier(name@),
            Token::Equals => TokenView::Equals,
            Token::StringLiteral(body) => TokenView::StringLiteral(body@),
            Token::IntLiteral(value) => TokenView::IntLiteral(*value as int),
            Token::Semicolon => TokenView::Semicolon,
            Token::Print => TokenView::Print,
            Token::OpenBrace => TokenView::OpenBrace,
            Token::CloseBrace => TokenView::CloseBrace,
        }
    }
}

impl View for Token {
    type V = TokenView;

    open spec fn view(&self) -> TokenView {
        self.deep_view()
    }
}

impl Clone for Token {
    fn clone(&self) -> (copy: Self)
        ensures
            copy@ == self@,
    {
        match self {
            Token::Var => Token::Var,
            Token::Mut => Token::Mut,
            Token::Identifier(name) => Token::Identifier(name.clone()),
            Token::Equals => Token::Equals,
            Token::StringLiteral(body) => Token::StringLiteral(body.clone()),
            Token::IntLiteral(value) => Token::IntLiteral(*value),
            Token::Semicolon => Token::Semicolon,
            Token::Print => Token::Print,
            Token::OpenBrace => Token::OpenBrace,
            Token::CloseBrace => Token::CloseBrace,
        }
    }
}

} // verus!
