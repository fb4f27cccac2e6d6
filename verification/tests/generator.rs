use minicompiler::ast::{FunctionCall, Statement, ValueType, VariableDeclaration};
use minicompiler::generator::generate_js;
use minicompiler::outcome::CompileError;

fn declare(mutable: bool, name: &str, value: ValueType) -> Statement {
    Statement::VariableDeclaration(VariableDeclaration {
        mutable,
        name: name.to_string(),
        value,
    })
}

fn call(name: &str, arguments: Vec<ValueType>) -> Statement {
    Statement::FunctionCall(FunctionCall { name: name.to_string(), arguments })
}

fn string(body: &str) -> ValueType {
    ValueType::Str(body.to_string())
}

fn printed(template: &str) -> Result<String, CompileError> {
    generate_js(&vec![call("print", vec![string(template)])])
}

fn line(template: &str) -> Result<String, CompileError> {
    Ok(format!("console.log(`{}`)\n", template))
}

#[test]
fn no_statements_no_lines() {
    assert_eq!(generate_js(&vec![]), Ok(String::new()));
}

#[test]
fn immutable_text_becomes_const() {
    let ast = vec![declare(false, "name", string("Alice"))];
    assert_eq!(generate_js(&ast), Ok("const name = 'Alice'\n".to_string()));
}

#[test]
fn mutable_number_becomes_let() {
    let ast = vec![declare(true, "count", ValueType::Int(5))];
    assert_eq!(generate_js(&ast), Ok("let count = 5\n".to_string()));
}

#[test]
fn mutable_text_and_immutable_number() {
    let ast = vec![declare(true, "s", string("")), declare(false, "n", ValueType::Int(0))];
    assert_eq!(generate_js(&ast), Ok("let s = ''\nconst n = 0\n".to_string()));
}

#[test]
fn numbers_are_written_in_decimal() {
    let ast = vec![
        declare(false, "a", ValueType::Int(10)),
        declare(false, "b", ValueType::Int(2147483647)),
        declare(false, "c", ValueType::Int(-1)),
        declare(false, "d", ValueType::Int(-2147483648)),
        declare(false, "e", ValueType::Int(1000000)),
        declare(false, "f", ValueType::Int(907)),
    ];
    let lines = [
        "const a = 10\n",
        "const b = 2147483647\n",
        "const c = -1\n",
        "const d = -2147483648\n",
        "const e = 1000000\n",
        "const f = 907\n",
    ];
    assert_eq!(generate_js(&ast), Ok(lines.concat()));
}

#[test]
fn an_apostrophe_in_a_text_is_not_escaped() {
    let ast = vec![declare(false, "s", string("it's {x}\\n"))];
    assert_eq!(generate_js(&ast), Ok("const s = 'it's {x}\\n'\n".to_string()));
}

#[test]
fn the_text_of_a_declaration_is_no_template() {
    let ast = vec![declare(false, "s", string("{99999999999} {name}"))];
    assert_eq!(generate_js(&ast), Ok("const s = '{99999999999} {name}'\n".to_string()));
}

#[test]
fn print_of_a_text() {
    assert_eq!(printed("Hello"), line("Hello"));
}

#[test]
fn print_of_a_number_writes_nothing() {
    let ast = vec![call("print", vec![ValueType::Int(5)])];
    assert_eq!(generate_js(&ast), Ok(String::new()));
}

#[test]
fn print_without_arguments_writes_nothing() {
    assert_eq!(generate_js(&vec![call("print", vec![])]), Ok(String::new()));
}

#[test]
fn print_writes_a_line_for_each_text() {
    let ast = vec![call("print", vec![string("a"), ValueType::Int(1), string("{b}")])];
    assert_eq!(generate_js(&ast), Ok("console.log(`a`)\nconsole.log(`${b}`)\n".to_string()));
}

#[test]
fn a_call_of_another_name_writes_nothing() {
    let ast =
        vec![call("println", vec![string("a")]), call("Print", vec![string("{99999999999}")])];
    assert_eq!(generate_js(&ast), Ok(String::new()));
}

#[test]
fn declaration_then_print_splices_the_name() {
    let ast = vec![
        declare(false, "name", string("Alice")),
        call("print", vec![string("Hello {name}")]),
    ];
    assert_eq!(
        generate_js(&ast),
        Ok("const name = 'Alice'\nconsole.log(`Hello ${name}`)\n".to_string())
    );
}

#[test]
fn digits_between_braces_are_left_alone() {
    assert_eq!(printed("literal {123}"), line("literal {123}"));
}

#[test]
fn two_placeholders() {
    assert_eq!(printed("{a} and {b}!"), line("${a} and ${b}!"));
}

#[test]
fn a_placeholder_written_twice_is_spliced_once_at_each_place() {
    assert_eq!(printed("{a}{a}"), line("${a}${a}"));
    assert_eq!(printed("{a} and {b} and {a} and {b}"), line("${a} and ${b} and ${a} and ${b}"));
    assert_eq!(printed("{x}{x}{x}{x}"), line("${x}${x}${x}${x}"));
}

#[test]
fn a_name_before_its_own_placeholder_is_left_alone() {
    assert_eq!(printed("a{a}"), line("a${a}"));
    assert_eq!(printed("{a}a"), line("${a}a"));
    assert_eq!(printed("a{a}a"), line("a${a}a"));
    assert_eq!(printed("a}a{a}"), line("a}a${a}"));
}

#[test]
fn a_name_and_one_that_begins_with_it() {
    assert_eq!(printed("{a}{ab}{a}{abc}"), line("${a}${ab}${a}${abc}"));
}

#[test]
fn a_dollar_before_a_placeholder_stays() {
    assert_eq!(printed("${name}"), line("$${name}"));
}

#[test]
fn reserved_words_name_no_placeholder() {
    assert_eq!(printed("{print} {var} {mut}"), line("{print} {var} {mut}"));
}

#[test]
fn words_with_upper_case_letters_name_placeholders() {
    assert_eq!(printed("{Name} {VAR}"), line("${Name} ${VAR}"));
}

#[test]
fn two_words_name_no_placeholder() {
    assert_eq!(printed("{foo bar}"), line("{foo bar}"));
}

#[test]
fn a_name_with_spaces_around_it_names_no_placeholder() {
    assert_eq!(printed("{ name }"), line("{ name }"));
}

#[test]
fn a_name_with_a_digit_names_no_placeholder() {
    assert_eq!(printed("{x1} {a_b}"), line("{x1} {a_b}"));
}

#[test]
fn empty_braces_are_left_alone() {
    assert_eq!(printed("{}"), line("{}"));
    assert_eq!(printed("}{"), line("}{"));
}

#[test]
fn a_brace_without_its_partner_is_left_alone() {
    assert_eq!(printed("{a"), line("{a"));
    assert_eq!(printed("a}"), line("a}"));
    assert_eq!(printed("}a{"), line("}a{"));
}

#[test]
fn braces_in_braces() {
    assert_eq!(printed("{{a}}"), line("{${a}}"));
}

#[test]
fn a_template_without_braces_is_left_alone() {
    assert_eq!(printed("name"), line("name"));
    assert_eq!(printed(""), line(""));
    assert_eq!(printed("a \"b\" 12 = ; caf\u{e9}"), line("a \"b\" 12 = ; caf\u{e9}"));
}

#[test]
fn a_large_number_in_a_segment_is_refused() {
    assert_eq!(printed("{99999999999}"), Err(CompileError::MalformedInteger));
    assert_eq!(printed("total 2147483648"), Err(CompileError::MalformedInteger));
    assert_eq!(printed("{a} x99999999999"), Err(CompileError::MalformedInteger));
}

#[test]
fn the_largest_number_in_a_segment_is_accepted() {
    assert_eq!(printed("total 2147483647 {n}"), line("total 2147483647 ${n}"));
}

#[test]
fn a_large_number_inside_quotation_marks_in_a_segment_is_text() {
    assert_eq!(printed("{x} \"99999999999\""), line("${x} \"99999999999\""));
}

#[test]
fn a_refused_template_ends_the_whole() {
    let ast = vec![
        declare(false, "a", ValueType::Int(1)),
        call("print", vec![string("{99999999999}")]),
        declare(false, "b", ValueType::Int(2)),
    ];
    assert_eq!(generate_js(&ast), Err(CompileError::MalformedInteger));
}

#[test]
fn statements_are_written_in_their_order() {
    let ast = vec![
        call("print", vec![string("one")]),
        declare(true, "x", ValueType::Int(2)),
        call("print", vec![string("{x}")]),
    ];
    assert_eq!(
        generate_js(&ast),
        Ok("console.log(`one`)\nlet x = 2\nconsole.log(`${x}`)\n".to_string())
    );
}

#[test]
fn the_keyword_of_a_line_is_read_back_as_its_mutability() {
    for mutable in [false, true] {
        let ast = vec![declare(mutable, "x", ValueType::Int(1))];
        let js = generate_js(&ast).unwrap();
        let keyword: String = js.chars().take_while(|c| c.is_ascii_alphabetic()).collect();
        let tokens = minicompiler::lexer::lexer(&keyword).unwrap();
        let immutable =
            tokens == vec![minicompiler::token::Token::Identifier("const".to_string())];
        let assignable = tokens == vec![minicompiler::token::Token::Identifier("let".to_string())];
        assert_eq!(immutable, !mutable);
        assert_eq!(assignable, mutable);
    }
}
