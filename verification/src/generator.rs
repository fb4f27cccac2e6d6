//! The generator: from statements to JavaScript, one line per statement.
//!
//! A declaration becomes `const name = value` or, where it is mutable,
//! `let name = value`. A text is written between apostrophes as it is, and a
//! number in decimal. A call of `print` becomes one `console.log` line for
//! each text among its arguments, the text taken as a template; an argument
//! that is a number writes nothing, and so does a call of any other name.

use crate::ast::{Statement, StatementView, ValueType, ValueView, DeclarationView, AST};
use crate::decimal::{decimal_text, push_decimal};
use crate::outcome::{join, lemma_prepend, prepend, result_view, CompileError};
use crate::template::{interpolate, interpolated};
use crate::text::{chars_of, push_chars};
use vstd::prelude::*;
use vstd::string::StringExecFns;

verus! {

/// The JavaScript keyword that binds a name: `let` where the value may be
/// replaced later, `const` where it may not.
pub open spec fn binding_keyword(mutable: bool) -> Seq<char> {
    if mutable {
        "let"@
    } else {
        "const"@
    }
}

/// A value as JavaScript writes it.
pub open spec fn value_text(value: ValueView) -> Seq<char> {
    match value {
        ValueView::Str(text) => seq!['\''] + text + seq!['\''],
        ValueView::Int(number) => decimal_text(number),
    }
}

/// The line that declares a name.
pub open spec fn declaration_line(declaration: DeclarationView) -> Seq<char> {
    binding_keyword(declaration.mutable) + " "@ + declaration.name + " = "@ + value_text(
        declaration.value,
    ) + "\n"@
}

/// The line that prints a template, given with its placeholders spliced.
pub open spec fn print_line(template: Seq<char>) -> Seq<char> {
    "console.log(`"@ + template + "`)\n"@
}

/// The lines that print `arguments`: one for each text, none for a number.
pub open spec fn print_lines(arguments: Seq<ValueView>) -> Result<Seq<char>, CompileError>
    decreases arguments.len(),
{
    if arguments.len() == 0 {
        Ok(Seq::empty())
    } else {
        match arguments[0] {
            ValueView::Str(template) => match interpolated(template) {
                Ok(text) => prepend(print_line(text), print_lines(arguments.skip(1))),
                Err(e) => Err(e),
            },
            ValueView::Int(_) => print_lines(arguments.skip(1)),
        }
    }
}

/// The lines of one statement.
pub open spec fn statement_lines(statement: StatementView) -> Result<Seq<char>, CompileError> {
    match statement {
        StatementView::VariableDeclaration(declaration) => Ok(declaration_line(declaration)),
        StatementView::FunctionCall(call) => if call.name == "print"@ {
            print_lines(call.arguments)
        } else {
            Ok(Seq::empty())
        },
    }
}

/// The JavaScript program for `ast`: the lines of its statements in their
/// order, or `MalformedInteger` where a printed template has a segment that
/// cannot be scanned.
pub open spec fn script_of(ast: Seq<StatementView>) -> Result<Seq<char>, CompileError>
    decreases ast.len(),
{
    if ast.len() == 0 {
        Ok(Seq::empty())
    } else {
        join(statement_lines(ast[0]), script_of(ast.skip(1)))
    }
}

/// Appends to `out` the lines that print `arguments`. Where one of them is
/// refused, `out` may hold the lines of those before it.
fn push_print_lines(out: &mut String, arguments: &Vec<ValueType>) -> (result: Result<
    (),
    CompileError,
>)
    ensures
        result is Ok ==> prepend(old(out)@, print_lines(arguments.deep_view())) == Ok::<
            Seq<char>,
            CompileError,
        >(final(out)@),
        result matches Err(e) ==> print_lines(arguments.deep_view()) == Err::<
            Seq<char>,
            CompileError,
        >(e),
{
    let ghost all = arguments.deep_view();
    let ghost start = out@;
    let mut i: usize = 0;
    assert(all.skip(0) =~= all);
    let ghost mut done = Seq::<char>::empty();
    while i < arguments.len()
        invariant
            i <= arguments.len(),
            all == arguments.deep_view(),
            out@ == start + done,
            print_lines(all) == prepend(done, print_lines(all.skip(i as int))),
        decreases arguments.len() - i,
    {
        let ghost rest = all.skip(i as int);
        assert(rest.skip(1) =~= all.skip(i + 1));
        match &arguments[i] {
            ValueType::Str(template) => {
                let chars = chars_of(template.as_str());
                match interpolate(chars.as_slice()) {
                    Ok(text) => {
                        out.append("console.log(`");
                        push_chars(out, text.as_slice());
                        out.append("`)\n");
                        proof {
                            let line = print_line(text@);
                            lemma_prepend(done, line, print_lines(all.skip(i + 1)));
                            done = done + line;
                        }
                    },
                    Err(e) => {
                        return Err(e);
                    },
                }
            },
            ValueType::Int(_) => {},
        }
        i += 1;
    }
    Ok(())
}

/// Appends to `out` the lines of `statement`. Where it is refused, `out`
/// may hold a part of them.
fn push_statement(out: &mut String, statement: &Statement) -> (result: Result<(), CompileError>)
    ensures
        result is Ok ==> prepend(old(out)@, statement_lines(statement@)) == Ok::<
            Seq<char>,
            CompileError,
        >(final(out)@),
        result matches Err(e) ==> statement_lines(statement@) == Err::<Seq<char>, CompileError>(e),
{
    let ghost start = out@;
    match statement {
        Statement::VariableDeclaration(declaration) => {
            if declaration.mutable {
                out.append("let");
            } else {
                out.append("const");
            }
            out.append(" ");
            out.append(declaration.name.as_str());
            out.append(" = ");
            match &declaration.value {
                ValueType::Str(text) => {
                    out.push('\'');
                    out.append(text.as_str());
                    out.push('\'');
                },
                ValueType::Int(number) => {
                    push_decimal(out, *number);
                },
            }
            out.append("\n");
            assert(out@ =~= start + declaration_line(declaration@));
            Ok(())
        },
        Statement::FunctionCall(call) => {
            if call.name == String::from_str("print") {
                push_print_lines(out, &call.arguments)
            } else {
                Ok(())
            }
        },
    }
}

/// Writes the JavaScript program for `ast`: its statements in their order,
/// each line ended by a line feed. The one program that is refused is one
/// with a printed template of which a segment, scanned on its own, holds a
/// number above `i32::MAX`.
pub fn generate_js(ast: &AST) -> (result: Result<String, CompileError>)
    ensures
        result_view(result) == script_of(ast.deep_view()),
{
    let ghost all = ast.deep_view();
    let mut out = String::new();
    let mut i: usize = 0;
    assert(all.skip(0) =~= all);
    while i < ast.len()
        invariant
            i <= ast.len(),
            all == ast.deep_view(),
            script_of(all) == prepend(out@, script_of(all.skip(i as int))),
        decreases ast.len() - i,
    {
        let ghost rest = all.skip(i as int);
        let ghost before = out@;
        assert(rest.skip(1) =~= all.skip(i + 1));
        match push_statement(&mut out, &ast[i]) {
            Ok(_) => {
                proof {
                    let lines = statement_lines(rest[0])->Ok_0;
                    lemma_prepend(before, lines, script_of(all.skip(i + 1)));
                }
            },
            Err(e) => {
                return Err(e);
            },
        }
        i += 1;
    }
    Ok(out)
}

} // verus!
