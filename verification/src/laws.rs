//! What holds of every program: how declarations are read, that a token
//! which starts no statement is passed over, and that the keyword of a
//! generated line tells whether the name can be assigned again.

use crate::ast::{CallView, DeclarationView, StatementView, ValueView};
use crate::compile::{compiled, program_of};
use crate::decimal::{decimal_text, decimal_value, law_decimal_round_trip};
use crate::generator::{binding_keyword, declaration_line, script_of};
use crate::lexer::{is_identifier, tokens_of, word_token};
use crate::outcome::{nothing, only, CompileError, Expected};
use crate::parser::{after, name_index, statements_of};
use crate::scanning::{
    ends_in_literal, glued, law_whitespace_between_tokens, lemma_quotes_concat, lemma_quotes_none,
    lemma_tokens_concat, lemma_tokens_of_char, lemma_tokens_of_number, lemma_tokens_of_quoted,
    lemma_tokens_of_word, quoted, quotes,
};
use crate::text::{all_in, all_whitespace, lemma_run_len_is, run_len, CharClass};
use crate::token::TokenView;
use vstd::prelude::*;

verus! {

/// The source text of a declaration in its shortest usual form: one space
/// between its tokens, and none before the `;`.
pub open spec fn declaration_source(mutable: bool, name: Seq<char>, literal: Seq<char>) -> Seq<
    char,
> {
    (if mutable {
        "var mut "@
    } else {
        "var "@
    }) + name + " = "@ + literal + ";"@
}

/// The tokens of such a declaration, `literal` being the token of its value.
pub open spec fn declaration_tokens(mutable: bool, name: Seq<char>, literal: TokenView) -> Seq<
    TokenView,
> {
    (if mutable {
        seq![TokenView::Var, TokenView::Mut]
    } else {
        seq![TokenView::Var]
    }) + seq![TokenView::Identifier(name), TokenView::Equals, literal, TokenView::Semicolon]
}

/// The declaration of `name` with `value`.
pub open spec fn declared(mutable: bool, name: Seq<char>, value: ValueView) -> DeclarationView {
    DeclarationView { mutable, name, value }
}

/// The declaration of `name` with `value`, as a statement.
pub open spec fn declaration_of(mutable: bool, name: Seq<char>, value: ValueView) -> StatementView {
    StatementView::VariableDeclaration(declared(mutable, name, value))
}

/// The call of `print` with the one argument `value`, as a statement.
pub open spec fn print_of(value: ValueView) -> StatementView {
    StatementView::FunctionCall(CallView { name: "print"@, arguments: seq![value] })
}

/// Whether `literal` is the token of a literal and `value` is what it holds.
pub open spec fn is_literal_of(literal: TokenView, value: ValueView) -> bool {
    literal == TokenView::StringLiteral(value->Str_0) && value is Str || literal
        == TokenView::IntLiteral(value->Int_0) && value is Int
}

/// The first word of a line: the letters with which it begins.
pub open spec fn first_word(line: Seq<char>) -> Seq<char> {
    line.take(run_len(line, CharClass::Letter) as int)
}

/// The tokens of `a + b` where both are scanned without failure, `a` does
/// not stop inside a literal and the two do not run together.
proof fn lemma_tokens_side_by_side(
    a: Seq<char>,
    b: Seq<char>,
    ta: Seq<TokenView>,
    tb: Seq<TokenView>,
)
    requires
        tokens_of(a) == Ok::<Seq<TokenView>, CompileError>(ta),
        tokens_of(b) == Ok::<Seq<TokenView>, CompileError>(tb),
        !ends_in_literal(a),
        !glued(a, b),
    ensures
        tokens_of(a + b) == Ok::<Seq<TokenView>, CompileError>(ta + tb),
        quotes(a + b) == quotes(a) + quotes(b),
{
    lemma_tokens_concat(a, b);
    lemma_quotes_concat(a, b);
}

/// The three reserved words and the two binding keywords, letter by letter.
proof fn lemma_words()
    ensures
        "print"@ == seq!['p', 'r', 'i', 'n', 't'],
        "var"@ == seq!['v', 'a', 'r'],
        "mut"@ == seq!['m', 'u', 't'],
        "let"@ == seq!['l', 'e', 't'],
        "const"@ == seq!['c', 'o', 'n', 's', 't'],
        word_token("var"@) == TokenView::Var,
        word_token("mut"@) == TokenView::Mut,
        word_token("print"@) == TokenView::Print,
        is_identifier("let"@),
        is_identifier("const"@),
        "let"@ != "const"@,
{
    reveal_strlit("print");
    reveal_strlit("var");
    reveal_strlit("mut");
    reveal_strlit("let");
    reveal_strlit("const");
    assert("print"@ =~= seq!['p', 'r', 'i', 'n', 't']);
    assert("var"@ =~= seq!['v', 'a', 'r']);
    assert("mut"@ =~= seq!['m', 'u', 't']);
    assert("let"@ =~= seq!['l', 'e', 't']);
    assert("const"@ =~= seq!['c', 'o', 'n', 's', 't']);
    assert("var"@[0] != "mut"@[0]);
    assert("let"@[0] != "var"@[0]);
    assert("let"@[0] != "mut"@[0]);
    assert("const"@[0] != "print"@[0]);
}

/// A declaration in its usual form is scanned into the tokens of a
/// declaration, whatever literal stands for its value.
pub proof fn lemma_declaration_tokens(
    mutable: bool,
    name: Seq<char>,
    literal: Seq<char>,
    token: TokenView,
)
    requires
        is_identifier(name),
        tokens_of(literal) == only(token),
        !ends_in_literal(literal),
    ensures
        tokens_of(declaration_source(mutable, name, literal)) == Ok::<Seq<TokenView>, CompileError>(
            declaration_tokens(mutable, name, token),
        ),
{
    lemma_words();
    reveal_strlit("var ");
    reveal_strlit("var mut ");
    reveal_strlit(" = ");
    reveal_strlit(";");
    let none = Seq::<TokenView>::empty();
    let space = seq![' '];
    lemma_tokens_of_char(' ');
    lemma_tokens_of_char('=');
    lemma_tokens_of_char(';');
    lemma_tokens_of_word("var"@);
    lemma_tokens_of_word("mut"@);
    lemma_tokens_of_word(name);
    assert forall|w: Seq<char>| all_in(w, CharClass::Letter) implies quotes(w) == 0 by {
        lemma_quotes_none(w);
    }
    // `var`, and `mut` where the declaration is mutable
    let p0 = "var"@;
    let t0 = seq![TokenView::Var];
    lemma_tokens_side_by_side(p0, space, t0, none);
    let p1 = p0 + space;
    let (p3, t3) = if mutable {
        lemma_tokens_side_by_side(p1, "mut"@, t0, seq![TokenView::Mut]);
        let p2 = p1 + "mut"@;
        let t2 = t0 + seq![TokenView::Mut];
        lemma_tokens_side_by_side(p2, space, t2, none);
        (p2 + space, t2)
    } else {
        (p1, t0)
    };
    assert(p3.last() == ' ');
    // the name
    lemma_tokens_side_by_side(p3, name, t3, seq![TokenView::Identifier(name)]);
    let p4 = p3 + name;
    let t4 = t3 + seq![TokenView::Identifier(name)];
    // ` = `
    lemma_tokens_side_by_side(p4, space, t4, none);
    let p5 = p4 + space;
    lemma_tokens_side_by_side(p5, seq!['='], t4, seq![TokenView::Equals]);
    let p6 = p5 + seq!['='];
    let t6 = t4 + seq![TokenView::Equals];
    lemma_tokens_side_by_side(p6, space, t6, none);
    let p7 = p6 + space;
    // the value
    lemma_tokens_side_by_side(p7, literal, t6, seq![token]);
    let p8 = p7 + literal;
    let t8 = t6 + seq![token];
    // `;`
    lemma_tokens_side_by_side(p8, seq![';'], t8, seq![TokenView::Semicolon]);
    let p9 = p8 + seq![';'];
    let t9 = t8 + seq![TokenView::Semicolon];
    assert(p9 =~= declaration_source(mutable, name, literal));
    assert(t9 =~= declaration_tokens(mutable, name, token));
}

/// The tokens of a declaration are read as that one declaration.
pub proof fn lemma_declaration_statement(
    mutable: bool,
    name: Seq<char>,
    literal: TokenView,
    value: ValueView,
)
    requires
        is_literal_of(literal, value),
    ensures
        statements_of(declaration_tokens(mutable, name, literal)) == only(
            declaration_of(mutable, name, value),
        ),
{
    let tokens = declaration_tokens(mutable, name, literal);
    let n = name_index(tokens);
    assert(tokens[n + 2] == literal);
    assert(statements_of(after(tokens, n + 4)) == nothing::<StatementView>());
}

/// A program of one declaration is compiled to the line of that
/// declaration.
proof fn lemma_script_of_declaration(declaration: DeclarationView)
    ensures
        script_of(seq![StatementView::VariableDeclaration(declaration)]) == Ok::<
            Seq<char>,
            CompileError,
        >(declaration_line(declaration)),
{
    let ast = seq![StatementView::VariableDeclaration(declaration)];
    assert(script_of(ast.skip(1)) == nothing::<char>());
    assert(declaration_line(declaration) + Seq::<char>::empty() =~= declaration_line(declaration));
}

/// Every declaration of a text, `var name = "text";` or
/// `var mut name = "text";`, is read as exactly one declaration, of that
/// name and with that text, mutable where `mut` is written: for every name
/// that is an identifier and every text without a quotation mark. It is
/// compiled to the one line of that declaration.
pub proof fn law_text_declaration(mutable: bool, name: Seq<char>, text: Seq<char>)
    requires
        is_identifier(name),
        all_in(text, CharClass::Unquoted),
    ensures
        program_of(declaration_source(mutable, name, quoted(text))) == only(
            declaration_of(mutable, name, ValueView::Str(text)),
        ),
        compiled(declaration_source(mutable, name, quoted(text))) == Ok::<Seq<char>, CompileError>(
            declaration_line(declared(mutable, name, ValueView::Str(text))),
        ),
{
    lemma_script_of_declaration(declared(mutable, name, ValueView::Str(text)));
    lemma_tokens_of_quoted(text);
    lemma_declaration_tokens(mutable, name, quoted(text), TokenView::StringLiteral(text));
    lemma_declaration_statement(
        mutable,
        name,
        TokenView::StringLiteral(text),
        ValueView::Str(text),
    );
}

/// Every declaration of a number, `var name = 5;` or `var mut name = 5;`,
/// is read as exactly one declaration, of that name and with the number
/// that the digits write, mutable where `mut` is written: for every name
/// that is an identifier and all digits that write a number up to
/// `i32::MAX`. It is compiled to the one line of that declaration.
pub proof fn law_number_declaration(mutable: bool, name: Seq<char>, digits: Seq<char>)
    requires
        is_identifier(name),
        digits.len() > 0,
        all_in(digits, CharClass::Digit),
        decimal_value(digits) <= i32::MAX,
    ensures
        program_of(declaration_source(mutable, name, digits)) == only(
            declaration_of(mutable, name, ValueView::Int(decimal_value(digits) as int)),
        ),
        compiled(declaration_source(mutable, name, digits)) == Ok::<Seq<char>, CompileError>(
            declaration_line(declared(mutable, name, ValueView::Int(decimal_value(digits) as int))),
        ),
{
    lemma_script_of_declaration(
        declared(mutable, name, ValueView::Int(decimal_value(digits) as int)),
    );
    lemma_tokens_of_number(digits);
    assert(all_in(digits, CharClass::Unquoted));
    lemma_quotes_none(digits);
    let number = decimal_value(digits) as int;
    lemma_declaration_tokens(mutable, name, digits, TokenView::IntLiteral(number));
    lemma_declaration_statement(
        mutable,
        name,
        TokenView::IntLiteral(number),
        ValueView::Int(number),
    );
}

/// The keyword of a generated declaration tells its mutability: the line
/// begins with the binding keyword, which the scanner reads back as one
/// identifier, and that identifier is `const` exactly where the declaration
/// is immutable, and `let` exactly where it is mutable.
pub proof fn law_binding_keyword_tells_mutability(declaration: DeclarationView)
    ensures
        first_word(declaration_line(declaration)) == binding_keyword(declaration.mutable),
        tokens_of(first_word(declaration_line(declaration))) == only(
            TokenView::Identifier("const"@),
        ) <==> !declaration.mutable,
        tokens_of(first_word(declaration_line(declaration))) == only(
            TokenView::Identifier("let"@),
        ) <==> declaration.mutable,
{
    lemma_words();
    reveal_strlit(" ");
    let keyword = binding_keyword(declaration.mutable);
    let line = declaration_line(declaration);
    assert(line.take(keyword.len() as int) =~= keyword);
    assert(line[keyword.len() as int] == ' ');
    lemma_run_len_is(line, CharClass::Letter, keyword.len());
    lemma_tokens_of_word(keyword);
    let other = binding_keyword(!declaration.mutable);
    assert(seq![TokenView::Identifier(keyword)][0] != seq![TokenView::Identifier(other)][0]);
}

/// A number that the generator writes is read back by the scanner as that
/// number: for every number that a token can hold.
pub proof fn law_number_round_trip(number: int)
    requires
        0 <= number <= i32::MAX,
    ensures
        tokens_of(decimal_text(number)) == only(TokenView::IntLiteral(number)),
{
    law_decimal_round_trip(number as nat);
    lemma_tokens_of_number(decimal_text(number));
}

/// A call of `print` is `print`, one token of any kind, the literal that
/// is printed, and one more token of any kind or the end of the tokens: it
/// is read as one call of `print` with that literal as its one argument.
pub proof fn law_print_call(
    second: TokenView,
    literal: TokenView,
    value: ValueView,
    last: Seq<TokenView>,
)
    requires
        is_literal_of(literal, value),
        last.len() <= 1,
    ensures
        statements_of(seq![TokenView::Print, second, literal] + last) == only(print_of(value)),
{
    let tokens = seq![TokenView::Print, second, literal] + last;
    assert(statements_of(after(tokens, 4)) == nothing::<StatementView>());
}

/// `print` with one token behind it, or none, is refused as truncated,
/// whatever that token is: a literal that stands directly behind `print`
/// stands at the place that is not looked at.
pub proof fn law_print_call_truncated(second: TokenView)
    ensures
        statements_of(seq![TokenView::Print, second]) == Err::<Seq<StatementView>, CompileError>(
            CompileError::TruncatedInput(Expected::Argument),
        ),
        statements_of(seq![TokenView::Print]) == Err::<Seq<StatementView>, CompileError>(
            CompileError::TruncatedInput(Expected::Argument),
        ),
{
}

/// A token that starts no statement is passed over: the statements are
/// those of the tokens behind it, and it ends nothing.
pub proof fn law_stray_token_skipped(token: TokenView, rest: Seq<TokenView>)
    requires
        !(token is Var),
        !(token is Print),
    ensures
        statements_of(seq![token] + rest) == statements_of(rest),
{
    let tokens = seq![token] + rest;
    assert(tokens.skip(1) =~= rest);
}

/// Any amount of whitespace between two tokens gives the same program: one
/// stretch of whitespace may be replaced by another, and by none where the
/// texts on its two sides do not run together.
pub proof fn law_whitespace_keeps_program(
    a: Seq<char>,
    w1: Seq<char>,
    w2: Seq<char>,
    b: Seq<char>,
)
    requires
        !ends_in_literal(a),
        all_whitespace(w1),
        all_whitespace(w2),
        w1.len() > 0 || !glued(a, b),
        w2.len() > 0 || !glued(a, b),
    ensures
        program_of(a + w1 + b) == program_of(a + w2 + b),
{
    law_whitespace_between_tokens(a, w1, w2, b);
}

} // verus!
