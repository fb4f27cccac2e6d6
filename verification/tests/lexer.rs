use minicompiler::lexer::{lex_chars, lexer};
use minicompiler::outcome::CompileError;
use minicompiler::token::Token;

fn ident(name: &str) -> Token {
    Token::Identifier(name.to_string())
}

fn text(body: &str) -> Token {
    Token::StringLiteral(body.to_string())
}

#[test]
fn empty_source_has_no_tokens() {
    assert_eq!(lexer(""), Ok(vec![]));
}

#[test]
fn whitespace_alone_has_no_tokens() {
    assert_eq!(lexer(" \t\r\n  \n"), Ok(vec![]));
}

#[test]
fn declaration_of_a_text() {
    assert_eq!(
        lexer("var name = \"text\";"),
        Ok(vec![Token::Var, ident("name"), Token::Equals, text("text"), Token::Semicolon])
    );
}

#[test]
fn mutable_declaration_of_a_number() {
    assert_eq!(
        lexer("var mut name = 5;"),
        Ok(vec![
            Token::Var,
            Token::Mut,
            ident("name"),
            Token::Equals,
            Token::IntLiteral(5),
            Token::Semicolon
        ])
    );
}

#[test]
fn print_is_a_mark_of_its_own() {
    assert_eq!(lexer("print"), Ok(vec![Token::Print]));
}

#[test]
fn print_call_leaves_no_token_for_its_parentheses() {
    assert_eq!(lexer("print(\"Hello\")"), Ok(vec![Token::Print, text("Hello")]));
}

#[test]
fn reserved_words_are_whole_words_only() {
    assert_eq!(
        lexer("variable mute printer vars"),
        Ok(vec![ident("variable"), ident("mute"), ident("printer"), ident("vars")])
    );
}

#[test]
fn reserved_words_are_lower_case() {
    assert_eq!(lexer("Var MUT Print"), Ok(vec![ident("Var"), ident("MUT"), ident("Print")]));
}

#[test]
fn a_word_ends_at_a_digit() {
    assert_eq!(lexer("abc123"), Ok(vec![ident("abc"), Token::IntLiteral(123)]));
}

#[test]
fn a_number_ends_at_a_letter() {
    assert_eq!(lexer("12ab"), Ok(vec![Token::IntLiteral(12), ident("ab")]));
}

#[test]
fn an_underscore_parts_two_words() {
    assert_eq!(lexer("first_name"), Ok(vec![ident("first"), ident("name")]));
}

#[test]
fn a_letter_outside_ascii_is_passed_over() {
    assert_eq!(lexer("caf\u{e9}s"), Ok(vec![ident("caf"), ident("s")]));
}

#[test]
fn the_four_marks() {
    assert_eq!(
        lexer("=;{}"),
        Ok(vec![Token::Equals, Token::Semicolon, Token::OpenBrace, Token::CloseBrace])
    );
}

#[test]
fn other_punctuation_is_passed_over() {
    assert_eq!(lexer("( ) , . + - * / ! ? ' ` [ ] < > : # @"), Ok(vec![]));
}

#[test]
fn punctuation_between_tokens_is_passed_over() {
    assert_eq!(lexer("a,b(c)"), Ok(vec![ident("a"), ident("b"), ident("c")]));
}

#[test]
fn string_literal_is_taken_as_it_is() {
    assert_eq!(
        lexer("\"var mut = 12; {x} \\n (caf\u{e9})\""),
        Ok(vec![text("var mut = 12; {x} \\n (caf\u{e9})")])
    );
}

#[test]
fn empty_string_literal() {
    assert_eq!(lexer("\"\""), Ok(vec![text("")]));
}

#[test]
fn string_literal_that_is_not_closed_runs_to_the_end() {
    assert_eq!(lexer("x \"abc def"), Ok(vec![ident("x"), text("abc def")]));
}

#[test]
fn a_lonely_quotation_mark_is_an_empty_literal() {
    assert_eq!(lexer("\""), Ok(vec![text("")]));
}

#[test]
fn a_backslash_does_not_escape_a_quotation_mark() {
    assert_eq!(lexer("\"a\\\"b\""), Ok(vec![text("a\\"), ident("b"), text("")]));
}

#[test]
fn two_literals_side_by_side() {
    assert_eq!(lexer("\"a\"\"b\""), Ok(vec![text("a"), text("b")]));
}

#[test]
fn zero_is_a_number() {
    assert_eq!(lexer("0"), Ok(vec![Token::IntLiteral(0)]));
}

#[test]
fn leading_zeros_count_for_nothing() {
    assert_eq!(lexer("0005"), Ok(vec![Token::IntLiteral(5)]));
    assert_eq!(lexer("000000000000000000000000000042"), Ok(vec![Token::IntLiteral(42)]));
}

#[test]
fn largest_number() {
    assert_eq!(lexer("2147483647"), Ok(vec![Token::IntLiteral(2147483647)]));
    assert_eq!(lexer("0002147483647"), Ok(vec![Token::IntLiteral(i32::MAX)]));
}

#[test]
fn one_above_the_largest_number_is_refused() {
    assert_eq!(lexer("2147483648"), Err(CompileError::MalformedInteger));
}

#[test]
fn fifty_digits_are_refused() {
    assert_eq!(
        lexer("var big = 12345678901234567890123456789012345678901234567890;"),
        Err(CompileError::MalformedInteger)
    );
}

#[test]
fn a_large_number_is_refused_wherever_it_stands() {
    assert_eq!(lexer("var x = 1; 99999999999"), Err(CompileError::MalformedInteger));
    assert_eq!(lexer("99999999999 var x = 1;"), Err(CompileError::MalformedInteger));
    assert_eq!(lexer("x99999999999y"), Err(CompileError::MalformedInteger));
}

#[test]
fn a_large_number_inside_a_literal_is_text() {
    assert_eq!(lexer("\"99999999999\""), Ok(vec![text("99999999999")]));
}

#[test]
fn a_minus_sign_is_passed_over() {
    assert_eq!(lexer("-5"), Ok(vec![Token::IntLiteral(5)]));
}

#[test]
fn whitespace_between_tokens_counts_for_nothing() {
    let short = lexer("var x=5;");
    assert_eq!(
        short,
        Ok(vec![Token::Var, ident("x"), Token::Equals, Token::IntLiteral(5), Token::Semicolon])
    );
    assert_eq!(lexer("var x = 5 ;"), short);
    assert_eq!(lexer("  var\n\n\tx\r\n=\t\t5\n;\n"), short);
    assert_eq!(lexer("var     x=     5;"), short);
}

#[test]
fn whitespace_inside_a_literal_is_text() {
    assert_eq!(lexer("\"a  b\""), Ok(vec![text("a  b")]));
    assert_ne!(lexer("\"a  b\""), lexer("\"a b\""));
}

#[test]
fn tokens_come_in_the_order_of_the_text() {
    assert_eq!(
        lexer("; x = \"s\" 7 { } mut var print"),
        Ok(vec![
            Token::Semicolon,
            ident("x"),
            Token::Equals,
            text("s"),
            Token::IntLiteral(7),
            Token::OpenBrace,
            Token::CloseBrace,
            Token::Mut,
            Token::Var,
            Token::Print
        ])
    );
}

#[test]
fn characters_and_text_give_the_same_tokens() {
    let source = "var mut n = 12; print(\"{n}\")";
    let chars: Vec<char> = source.chars().collect();
    assert_eq!(lex_chars(&chars), lexer(source));
}

#[test]
fn a_token_can_be_copied() {
    let token = ident("name");
    assert_eq!(token.clone(), token);
    assert_eq!(Token::IntLiteral(3).clone(), Token::IntLiteral(3));
    assert_eq!(text("a b").clone(), text("a b"));
    assert_eq!(Token::Print.clone(), Token::Print);
}
