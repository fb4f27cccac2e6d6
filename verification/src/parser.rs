//! The parser: from tokens to statements.
//!
//! A statement starts at `var` or at `print` and has a fixed shape; the
//! parser goes through the tokens once, from left to right, and never looks
//! back. A token that starts no statement is passed over in silence.
//!
//! A declaration is `var`, `mut` if the declaration is mutable, the name, one
//! token that is not looked at (the place of `=`), the value, and one more
//! token that is not looked at (the place of `;`). A call is `print`, one
//! token that is not looked at, the argument, and one more token that is not
//! looked at. Where the tokens end at a place that is not looked at, nothing
//! is missed.

use crate::ast::{
    CallView, DeclarationView, FunctionCall, Statement, StatementView, ValueType, ValueView,
    VariableDeclaration, AST,
};
use crate::lexer::{all_well_formed, is_identifier};
use crate::outcome::{lemma_prepend, prepend, result_view, CompileError, Expected};
use crate::text::{all_in, CharClass};
use crate::token::{Token, TokenView};
use vstd::prelude::*;
use vstd::string::StringExecFns;

verus! {

/// The literal value that stands at place `i` of `tokens`, where a
/// statement asks for `what`: `TruncatedInput` where the tokens end before
/// it, `UnexpectedToken` where the token there is no literal.
pub open spec fn literal_at(tokens: Seq<TokenView>, i: int, what: Expected) -> Result<
    ValueView,
    CompileError,
> {
    if i >= tokens.len() {
        Err(CompileError::TruncatedInput(what))
    } else {
        match tokens[i] {
            TokenView::StringLiteral(text) => Ok(ValueView::Str(text)),
            TokenView::IntLiteral(number) => Ok(ValueView::Int(number)),
            _ => Err(CompileError::UnexpectedToken(what)),
        }
    }
}

/// The place of the name in a declaration that starts at the head of
/// `tokens`: behind `var`, and behind `mut` where that follows.
pub open spec fn name_index(tokens: Seq<TokenView>) -> int {
    if tokens.len() > 1 && tokens[1] is Mut {
        2
    } else {
        1
    }
}

/// The declaration that starts at the head of `tokens`, which is `var`.
pub open spec fn declaration_at(tokens: Seq<TokenView>) -> Result<DeclarationView, CompileError> {
    let n = name_index(tokens);
    if n >= tokens.len() {
        Err(CompileError::TruncatedInput(Expected::Name))
    } else {
        match tokens[n] {
            TokenView::Identifier(name) => match literal_at(tokens, n + 2, Expected::Value) {
                Ok(value) => Ok(DeclarationView { mutable: n == 2, name, value }),
                Err(e) => Err(e),
            },
            _ => Err(CompileError::UnexpectedToken(Expected::Name)),
        }
    }
}

/// The call that starts at the head of `tokens`, which is `print`.
pub open spec fn call_at(tokens: Seq<TokenView>) -> Result<CallView, CompileError> {
    match literal_at(tokens, 2, Expected::Argument) {
        Ok(argument) => Ok(CallView { name: "print"@, arguments: seq![argument] }),
        Err(e) => Err(e),
    }
}

/// The tokens that are left when `n` of them are taken, or none where there
/// are fewer.
pub open spec fn after(tokens: Seq<TokenView>, n: int) -> Seq<TokenView> {
    if n <= tokens.len() {
        tokens.skip(n)
    } else {
        Seq::empty()
    }
}

/// The statements that `tokens` spell, in their order, or the reason for
/// which the first statement that is not well formed is refused.
pub open spec fn statements_of(tokens: Seq<TokenView>) -> Result<Seq<StatementView>, CompileError>
    decreases tokens.len(),
{
    if tokens.len() == 0 {
        Ok(Seq::empty())
    } else {
        match tokens[0] {
            TokenView::Var => match declaration_at(tokens) {
                Ok(declaration) => prepend(
                    seq![StatementView::VariableDeclaration(declaration)],
                    statements_of(after(tokens, name_index(tokens) + 4)),
                ),
                Err(e) => Err(e),
            },
            TokenView::Print => match call_at(tokens) {
                Ok(call) => prepend(
                    seq![StatementView::FunctionCall(call)],
                    statements_of(after(tokens, 4)),
                ),
                Err(e) => Err(e),
            },
            _ => statements_of(tokens.skip(1)),
        }
    }
}

/// Whether a call is one that the parser builds: a call of `print` with one
/// argument.
pub open spec fn is_print_call(statement: StatementView) -> bool {
    statement matches StatementView::FunctionCall(call) ==> call.name == "print"@
        && call.arguments.len() == 1
}

/// What holds of a value that was read from a well-formed token.
pub open spec fn well_formed_value(value: ValueView) -> bool {
    match value {
        ValueView::Str(text) => all_in(text, CharClass::Unquoted),
        ValueView::Int(number) => 0 <= number <= i32::MAX,
    }
}

/// What holds of a statement that was read from well-formed tokens: a
/// declaration has an identifier for its name, a call is a call of `print`
/// with one argument, and the value of either is well formed.
pub open spec fn well_formed_statement(statement: StatementView) -> bool {
    match statement {
        StatementView::VariableDeclaration(declaration) => is_identifier(declaration.name)
            && well_formed_value(declaration.value),
        StatementView::FunctionCall(call) => call.name == "print"@ && call.arguments.len() == 1
            && well_formed_value(call.arguments[0]),
    }
}

/// Whether every call among `ast` is a call of `print` with one argument.
pub open spec fn all_print_calls(ast: Seq<StatementView>) -> bool {
    forall|i: int| 0 <= i < ast.len() ==> is_print_call(#[trigger] ast[i])
}

/// Whether each of `ast` is well formed.
pub open spec fn all_well_formed_statements(ast: Seq<StatementView>) -> bool {
    forall|i: int| 0 <= i < ast.len() ==> well_formed_statement(#[trigger] ast[i])
}

/// Every call among the statements of any tokens is a call of `print` with
/// one argument.
pub proof fn lemma_calls_are_print_calls(tokens: Seq<TokenView>)
    ensures
        statements_of(tokens) matches Ok(ast) ==> all_print_calls(ast),
    decreases tokens.len(),
{
    if tokens.len() > 0 {
        let rest = match tokens[0] {
            TokenView::Var => after(tokens, name_index(tokens) + 4),
            TokenView::Print => after(tokens, 4),
            _ => tokens.skip(1),
        };
        lemma_calls_are_print_calls(rest);
    }
}

/// The statements of well-formed tokens are well formed.
pub proof fn lemma_statements_well_formed(tokens: Seq<TokenView>)
    requires
        all_well_formed(tokens),
    ensures
        statements_of(tokens) matches Ok(ast) ==> all_well_formed_statements(ast),
    decreases tokens.len(),
{
    if tokens.len() > 0 {
        let rest = match tokens[0] {
            TokenView::Var => after(tokens, name_index(tokens) + 4),
            TokenView::Print => after(tokens, 4),
            _ => tokens.skip(1),
        };
        lemma_statements_well_formed(rest);
    }
}

/// Reads the literal at place `k` of the tokens from `i` on.
fn literal(tokens: &[Token], i: usize, k: usize, what: Expected) -> (result: Result<
    ValueType,
    CompileError,
>)
    requires
        i <= tokens.len(),
    ensures
        result_view(result) == literal_at(tokens.deep_view().skip(i as int), k as int, what),
{
    if k >= tokens.len() - i {
        return Err(CompileError::TruncatedInput(what));
    }
    match &tokens[i + k] {
        Token::StringLiteral(text) => Ok(ValueType::Str(text.clone())),
        Token::IntLiteral(number) => Ok(ValueType::Int(*number)),
        _ => Err(CompileError::UnexpectedToken(what)),
    }
}

/// The place `i + n`, or the end of the tokens where that is nearer.
fn advance(tokens: &[Token], i: usize, n: usize) -> (next: usize)
    requires
        i <= tokens.len(),
    ensures
        i <= next <= tokens.len(),
        i + n <= tokens.len() ==> next == i + n,
        i + n > tokens.len() ==> next == tokens.len(),
{
    if n <= tokens.len() - i {
        i + n
    } else {
        tokens.len()
    }
}

/// Reads tokens as statements. The statements come in the order of the
/// tokens. A statement that lacks a token it needs is refused with
/// `TruncatedInput`, one with a token of the wrong kind at the place of its
/// name or of its value with `UnexpectedToken`; both say what the statement
/// asked for at that place.
pub fn parser(tokens: &[Token]) -> (result: Result<AST, CompileError>)
    ensures
        result_view(result) == statements_of(tokens.deep_view()),
        result matches Ok(ast) ==> all_print_calls(ast.deep_view()),
        all_well_formed(tokens.deep_view()) ==> (result matches Ok(ast)
            ==> all_well_formed_statements(ast.deep_view())),
{
    let ghost all = tokens.deep_view();
    proof {
        lemma_calls_are_print_calls(all);
        if all_well_formed(all) {
            lemma_statements_well_formed(all);
        }
    }
    let mut ast: Vec<Statement> = Vec::new();
    let mut i: usize = 0;
    assert(all.skip(0) =~= all);
    while i < tokens.len()
        invariant
            i <= tokens.len(),
            all == tokens.deep_view(),
            statements_of(all) == prepend(ast.deep_view(), statements_of(all.skip(i as int))),
        decreases tokens.len() - i,
    {
        let ghost rest = all.skip(i as int);
        let ghost before = ast.deep_view();
        let next: usize;
        let statement: Option<Statement>;
        match &tokens[i] {
            Token::Var => {
                let mutable = i + 1 < tokens.len() && matches!(&tokens[i + 1], Token::Mut);
                let n: usize = if mutable {
                    2
                } else {
                    1
                };
                if n >= tokens.len() - i {
                    return Err(CompileError::TruncatedInput(Expected::Name));
                }
                match &tokens[i + n] {
                    Token::Identifier(name) => {
                        match literal(tokens, i, n + 2, Expected::Value) {
                            Ok(value) => {
                                statement = Some(
                                    Statement::VariableDeclaration(
                                        VariableDeclaration { mutable, name: name.clone(), value },
                                    ),
                                );
                            },
                            Err(e) => {
                                return Err(e);
                            },
                        }
                    },
                    _ => {
                        return Err(CompileError::UnexpectedToken(Expected::Name));
                    },
                }
                next = advance(tokens, i, n + 4);
                assert(after(rest, n + 4) =~= all.skip(next as int));
            },
            Token::Print => {
                match literal(tokens, i, 2, Expected::Argument) {
                    Ok(argument) => {
                        let mut arguments: Vec<ValueType> = Vec::new();
                        arguments.push(argument);
                        assert(arguments.deep_view() =~= seq![argument@]);
                        statement = Some(
                            Statement::FunctionCall(
                                FunctionCall { name: String::from_str("print"), arguments },
                            ),
                        );
                    },
                    Err(e) => {
                        return Err(e);
                    },
                }
                next = advance(tokens, i, 4);
                assert(after(rest, 4) =~= all.skip(next as int));
            },
            _ => {
                statement = None;
                next = i + 1;
                assert(rest.skip(1) =~= all.skip(next as int));
            },
        }
        match statement {
            Some(statement) => {
                ast.push(statement);
                proof {
                    assert(ast.deep_view() =~= before + seq![statement@]);
                    lemma_prepend(before, seq![statement@], statements_of(all.skip(next as int)));
                }
            },
            None => {},
        }
        i = next;
    }
    Ok(ast)
}

} // verus!
