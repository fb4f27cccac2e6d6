use minicompiler::ast::{Statement, ValueType, VariableDeclaration};
use minicompiler::compile::compile;
use minicompiler::generator::generate_js;
use minicompiler::lexer::lexer;
use minicompiler::outcome::{CompileError, Expected};
use minicompiler::parser::parser;

fn program(source: &str) -> Result<Vec<Statement>, CompileError> {
    parser(&lexer(source)?)
}

fn declare(mutable: bool, name: &str, value: ValueType) -> Statement {
    Statement::VariableDeclaration(VariableDeclaration {
        mutable,
        name: name.to_string(),
        value,
    })
}

#[test]
fn text_declaration_is_one_immutable_declaration() {
    assert_eq!(
        program("var name = \"text\";"),
        Ok(vec![declare(false, "name", ValueType::Str("text".to_string()))])
    );
}

#[test]
fn text_declarations_of_other_names_and_texts() {
    for (name, text) in [("x", ""), ("Greeting", "Hello, World!"), ("vars", "var mut print 12 ;")] {
        let source = format!("var {} = \"{}\";", name, text);
        assert_eq!(
            program(&source),
            Ok(vec![declare(false, name, ValueType::Str(text.to_string()))])
        );
    }
}

#[test]
fn mutable_number_declaration_is_one_mutable_declaration() {
    assert_eq!(
        program("var mut name = 5;"),
        Ok(vec![declare(true, "name", ValueType::Int(5))])
    );
}

#[test]
fn number_declarations_of_other_names_and_numbers() {
    let cases = [("a", "0", 0), ("Total", "2147483647", i32::MAX), ("n", "007", 7)];
    for (name, digits, number) in cases {
        let source = format!("var mut {} = {};", name, digits);
        assert_eq!(program(&source), Ok(vec![declare(true, name, ValueType::Int(number))]));
    }
}

#[test]
fn extra_whitespace_gives_the_same_program() {
    let short = program("var name=\"text\";var mut n=5;");
    assert_eq!(
        short,
        Ok(vec![
            declare(false, "name", ValueType::Str("text".to_string())),
            declare(true, "n", ValueType::Int(5))
        ])
    );
    assert_eq!(program("var name = \"text\"; var mut n = 5;"), short);
    assert_eq!(
        program("\n\nvar\n\tname\n\t=\n\t\"text\"\n;\r\n\r\nvar   mut   n   =   5   ;   "),
        short
    );
}

#[test]
fn whitespace_is_needed_between_two_words() {
    assert_eq!(program("varname = \"text\";"), Ok(vec![]));
    assert_eq!(program("var mutn = 5;"), Ok(vec![declare(false, "mutn", ValueType::Int(5))]));
}

#[test]
fn a_number_of_fifty_digits_is_refused() {
    assert_eq!(
        compile("var big = 12345678901234567890123456789012345678901234567890;"),
        Err(CompileError::MalformedInteger)
    );
}

#[test]
fn a_refused_number_is_reported_before_a_refused_statement() {
    assert_eq!(compile("var = 1; 99999999999"), Err(CompileError::MalformedInteger));
    assert_eq!(compile("var = 1; 9"), Err(CompileError::UnexpectedToken(Expected::Name)));
}

#[test]
fn a_bare_equals_at_the_start_is_passed_over() {
    assert_eq!(program("= var x = 5;"), Ok(vec![declare(false, "x", ValueType::Int(5))]));
    assert_eq!(compile("= var x = 5;"), Ok("const x = 5\n".to_string()));
}

#[test]
fn stray_tokens_do_not_end_the_program() {
    assert_eq!(
        compile("; } x 12 \"s\" var a = 1; mut { var mut b = \"two\"; ="),
        Ok("const a = 1\nlet b = 'two'\n".to_string())
    );
}

#[test]
fn empty_source_gives_an_empty_program() {
    assert_eq!(compile(""), Ok(String::new()));
    assert_eq!(compile("  \n "), Ok(String::new()));
}

#[test]
fn declarations_are_compiled_line_by_line() {
    assert_eq!(
        compile("var name = \"Alice\";\nvar mut age = 30;\n"),
        Ok("const name = 'Alice'\nlet age = 30\n".to_string())
    );
}

#[test]
fn print_with_a_token_before_and_behind_its_text() {
    assert_eq!(
        compile("var name = \"Alice\";\nprint(to \"Hello {name}\");\n"),
        Ok("const name = 'Alice'\nconsole.log(`Hello ${name}`)\n".to_string())
    );
}

#[test]
fn print_leaves_digits_between_braces_alone() {
    assert_eq!(
        compile("print(to \"literal {123}\");"),
        Ok("console.log(`literal {123}`)\n".to_string())
    );
}

#[test]
fn print_takes_its_text_for_the_token_that_is_not_looked_at() {
    assert_eq!(
        compile("print(\"Hello {name}\")"),
        Err(CompileError::TruncatedInput(Expected::Argument))
    );
    assert_eq!(
        compile("print(\"Hello\");"),
        Err(CompileError::UnexpectedToken(Expected::Argument))
    );
    assert_eq!(compile("print(\"a\" \"b\")"), Ok("console.log(`b`)\n".to_string()));
}

#[test]
fn print_of_a_number_is_compiled_to_nothing() {
    assert_eq!(compile("var x = 1; print(to 5);"), Ok("const x = 1\n".to_string()));
}

#[test]
fn declaration_without_a_value_is_truncated() {
    assert_eq!(compile("var x"), Err(CompileError::TruncatedInput(Expected::Value)));
    assert_eq!(compile("var x ="), Err(CompileError::TruncatedInput(Expected::Value)));
    assert_eq!(compile("var"), Err(CompileError::TruncatedInput(Expected::Name)));
}

#[test]
fn declaration_of_print_is_unexpected() {
    assert_eq!(compile("var print = 5;"), Err(CompileError::UnexpectedToken(Expected::Name)));
}

#[test]
fn declaration_with_a_repeated_value_is_read_in_silence() {
    assert_eq!(compile("var x 5 5;"), Ok("const x = 5\n".to_string()));
}

#[test]
fn compile_is_the_three_steps_in_a_row() {
    let source = "var a = \"x\"; var mut b = 2; print(to \"{a} {b} {c}\");";
    let by_steps = generate_js(&parser(&lexer(source).unwrap()).unwrap());
    assert_eq!(compile(source), by_steps);
    assert_eq!(
        by_steps,
        Ok("const a = 'x'\nlet b = 2\nconsole.log(`${a} ${b} ${c}`)\n".to_string())
    );
}

#[test]
fn errors_can_be_copied_and_compared() {
    let e = CompileError::TruncatedInput(Expected::Value);
    let copy = e;
    assert_eq!(e, copy.clone());
    assert_ne!(CompileError::MalformedInteger, CompileError::UnexpectedToken(Expected::Name));
    assert_ne!(
        CompileError::UnexpectedToken(Expected::Name),
        CompileError::UnexpectedToken(Expected::Value)
    );
    assert_eq!(
        format!("{:?}", CompileError::UnexpectedToken(Expected::Argument)),
        "UnexpectedToken(Argument)"
    );
}
