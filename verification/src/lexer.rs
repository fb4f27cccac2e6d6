//! The scanner: from a source text to its tokens.
//!
//! The text is read from left to right. At each place the scanner takes
//! whitespace away, or the longest word, number or string literal that
//! starts there, or one of the four marks `=`, `;`, `{`, `}`. Every other
//! character is passed over in silence: parentheses and all other
//! punctuation leave no token.

use crate::decimal::{decimal_value, parse_decimal};
use crate::outcome::{lemma_prepend, prepend, result_view, CompileError};
use crate::text::{all_in, chars_of, lemma_run_len, run_len, run_of, spells, string_of, CharClass};
use crate::token::{Token, TokenView};
use vstd::prelude::*;
use vstd::slice::slice_subrange;

verus! {

/// The token that a word stands for: `print`, `var` and `mut` are marks of
/// their own, every other word is an identifier.
pub open spec fn word_token(word: Seq<char>) -> TokenView {
    if word == "print"@ {
        TokenView::Print
    } else if word == "var"@ {
        TokenView::Var
    } else if word == "mut"@ {
        TokenView::Mut
    } else {
        TokenView::Identifier(word)
    }
}

/// The token that a character stands for on its own: one of the four marks,
/// or none.
pub open spec fn mark_token(c: char) -> Option<TokenView> {
    if c == '=' {
        Some(TokenView::Equals)
    } else if c == ';' {
        Some(TokenView::Semicolon)
    } else if c == '{' {
        Some(TokenView::OpenBrace)
    } else if c == '}' {
        Some(TokenView::CloseBrace)
    } else {
        None
    }
}

/// A word that the scanner reads as an identifier: one or more letters
/// that spell none of `print`, `var` and `mut`.
pub open spec fn is_identifier(word: Seq<char>) -> bool {
    word.len() > 0 && all_in(word, CharClass::Letter) && word != "print"@ && word != "var"@
        && word != "mut"@
}

/// What holds of every token that the scanner gives: the name of an
/// identifier is an identifier, a string literal holds no quotation mark,
/// and a number lies between zero and `i32::MAX`.
pub open spec fn well_formed(token: TokenView) -> bool {
    match token {
        TokenView::Identifier(name) => is_identifier(name),
        TokenView::StringLiteral(text) => all_in(text, CharClass::Unquoted),
        TokenView::IntLiteral(number) => 0 <= number <= i32::MAX,
        _ => true,
    }
}

/// Whether each of `tokens` is well formed.
pub open spec fn all_well_formed(tokens: Seq<TokenView>) -> bool {
    forall|i: int| 0 <= i < tokens.len() ==> well_formed(#[trigger] tokens[i])
}

/// How many characters the scanner takes at the head of the non-empty text
/// `s`: a whole run of letters or of digits, a string literal with its
/// quotation marks (the closing one may be missing at the end of the text),
/// or one character.
pub open spec fn step_len(s: Seq<char>) -> nat {
    let c = s[0];
    if CharClass::Letter.contains(c) {
        run_len(s, CharClass::Letter)
    } else if CharClass::Digit.contains(c) {
        run_len(s, CharClass::Digit)
    } else if c == '"' {
        let body = run_len(s.skip(1), CharClass::Unquoted);
        if 1 + body < s.len() {
            body + 2
        } else {
            body + 1
        }
    } else {
        1
    }
}

/// What the scanner makes of the characters that it takes at the head of the
/// non-empty text `s`: a token, nothing, or the refusal of a number above
/// `i32::MAX`.
pub open spec fn step_token(s: Seq<char>) -> Result<Option<TokenView>, CompileError> {
    let c = s[0];
    if CharClass::Letter.contains(c) {
        Ok(Some(word_token(s.take(run_len(s, CharClass::Letter) as int))))
    } else if CharClass::Digit.contains(c) {
        let value = decimal_value(s.take(run_len(s, CharClass::Digit) as int));
        if value <= i32::MAX {
            Ok(Some(TokenView::IntLiteral(value as int)))
        } else {
            Err(CompileError::MalformedInteger)
        }
    } else if c == '"' {
        let body = s.skip(1);
        Ok(Some(TokenView::StringLiteral(body.take(run_len(body, CharClass::Unquoted) as int))))
    } else {
        Ok(mark_token(c))
    }
}

/// The tokens of a source text, in the order of the text, or
/// `MalformedInteger` where one of its numbers is above `i32::MAX`.
pub open spec fn tokens_of(s: Seq<char>) -> Result<Seq<TokenView>, CompileError>
    decreases s.len(),
    via tokens_of_decreases
{
    if s.len() == 0 {
        Ok(Seq::empty())
    } else {
        match step_token(s) {
            Err(e) => Err(e),
            Ok(None) => tokens_of(s.skip(step_len(s) as int)),
            Ok(Some(token)) => prepend(seq![token], tokens_of(s.skip(step_len(s) as int))),
        }
    }
}

#[via_fn]
proof fn tokens_of_decreases(s: Seq<char>) {
    if s.len() > 0 {
        lemma_step_len(s);
    }
}

/// A step takes at least one character and stays inside the text.
pub proof fn lemma_step_len(s: Seq<char>)
    requires
        s.len() > 0,
    ensures
        1 <= step_len(s) <= s.len(),
{
    lemma_run_len(s, CharClass::Letter);
    lemma_run_len(s, CharClass::Digit);
    lemma_run_len(s.skip(1), CharClass::Unquoted);
}

/// The tokens of a text are well formed.
pub proof fn lemma_tokens_well_formed(s: Seq<char>)
    ensures
        tokens_of(s) matches Ok(tokens) ==> all_well_formed(tokens),
    decreases s.len(),
{
    if s.len() > 0 {
        lemma_step_len(s);
        let rest = s.skip(step_len(s) as int);
        lemma_tokens_well_formed(rest);
        lemma_run_len(s, CharClass::Letter);
        lemma_run_len(s.skip(1), CharClass::Unquoted);
        match (step_token(s), tokens_of(rest)) {
            (Ok(Some(token)), Ok(tail)) => {
                let tokens = seq![token] + tail;
                assert forall|i: int| 0 <= i < tokens.len() implies well_formed(
                    #[trigger] tokens[i],
                ) by {
                    if i > 0 {
                        assert(tokens[i] == tail[i - 1]);
                    }
                }
            },
            _ => {},
        }
    }
}

/// The token that the word `chars` stands for.
fn word(chars: &[char]) -> (token: Token)
    ensures
        token@ == word_token(chars@),
{
    if spells(chars, "print") {
        Token::Print
    } else if spells(chars, "var") {
        Token::Var
    } else if spells(chars, "mut") {
        Token::Mut
    } else {
        Token::Identifier(string_of(chars))
    }
}

/// Cuts a text, given as its characters, into tokens.
pub fn lex_chars(chars: &[char]) -> (result: Result<Vec<Token>, CompileError>)
    ensures
        result_view(result) == tokens_of(chars@),
        result matches Ok(tokens) ==> all_well_formed(tokens.deep_view()),
{
    proof {
        lemma_tokens_well_formed(chars@);
    }
    let mut tokens: Vec<Token> = Vec::new();
    let mut i: usize = 0;
    assert(chars@.skip(0) =~= chars@);
    while i < chars.len()
        invariant
            i <= chars.len(),
            tokens_of(chars@) == prepend(tokens.deep_view(), tokens_of(chars@.skip(i as int))),
        decreases chars.len() - i,
    {
        let ghost before = tokens.deep_view();
        let rest = slice_subrange(chars, i, chars.len());
        proof {
            lemma_step_len(rest@);
        }
        let c = chars[i];
        let taken: usize;
        let token: Option<Token>;
        if CharClass::Letter.accepts(c) {
            taken = run_of(rest, CharClass::Letter);
            token = Some(word(slice_subrange(rest, 0, taken)));
        } else if CharClass::Digit.accepts(c) {
            taken = run_of(rest, CharClass::Digit);
            proof {
                lemma_run_len(rest@, CharClass::Digit);
            }
            match parse_decimal(slice_subrange(rest, 0, taken)) {
                Some(value) => {
                    token = Some(Token::IntLiteral(value));
                },
                None => {
                    return Err(CompileError::MalformedInteger);
                },
            }
        } else if c == '"' {
            let body = slice_subrange(rest, 1, rest.len());
            let n = run_of(body, CharClass::Unquoted);
            token = Some(Token::StringLiteral(string_of(slice_subrange(body, 0, n))));
            taken = if n < body.len() {
                n + 2
            } else {
                n + 1
            };
        } else {
            taken = 1;
            token = if c == '=' {
                Some(Token::Equals)
            } else if c == ';' {
                Some(Token::Semicolon)
            } else if c == '{' {
                Some(Token::OpenBrace)
            } else if c == '}' {
                Some(Token::CloseBrace)
            } else {
                None
            };
        }
        assert(rest@.skip(taken as int) =~= chars@.skip(i + taken));
        match token {
            Some(token) => {
                tokens.push(token);
                proof {
                    assert(tokens.deep_view() =~= before + seq![token@]);
                    lemma_prepend(before, seq![token@], tokens_of(chars@.skip(i + taken)));
                }
            },
            None => {},
        }
        i = i + taken;
    }
    Ok(tokens)
}

/// Cuts a source text into tokens. The tokens come in the order of the text.
/// The one text that is refused is a text with a number above `i32::MAX`.
pub fn lexer(input: &str) -> (result: Result<Vec<Token>, CompileError>)
    ensures
        result_view(result) == tokens_of(input@),
        result matches Ok(tokens) ==> all_well_formed(tokens.deep_view()),
{
    let chars = chars_of(input);
    lex_chars(chars.as_slice())
}

} // verus!
