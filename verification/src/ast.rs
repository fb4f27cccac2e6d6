//! The statements of a program, as the parser builds them and the generator
//! reads them.

use vstd::prelude::*;

verus! {

/// A literal value: the only thing a declaration can hold or a call can take.
#[derive(Debug, PartialEq)]
pub enum ValueType {
    /// A text, without the quotation marks that stood round it.
    Str(String),
    /// A number.
    Int(i32),
}

/// The declaration of a named value, `var name = value;` or
/// `var mut name = value;`.
#[derive(Debug, PartialEq)]
pub struct VariableDeclaration {
    /// Whether `mut` was written.
    pub mutable: bool,
    /// The name that is declared. The parser takes it from an identifier,
    /// so that it is never empty.
    pub name: String,
    /// The literal that the name stands for.
    pub value: ValueType,
}

/// The call of a function by its name. The parser builds calls of `print`
/// with one argument and no others.
#[derive(Debug, PartialEq)]
pub struct FunctionCall {
    /// The name of the function that is called.
    pub name: String,
    /// The literals that it is called with, in their order.
    pub arguments: Vec<ValueType>,
}

/// One statement of a program. A statement stands for itself: it refers to
/// no other statement.
#[derive(Debug, PartialEq)]
pub enum Statement {
    VariableDeclaration(VariableDeclaration),
    FunctionCall(FunctionCall),
}

/// A program: its statements in the order of the source, which is the order
/// in which their lines are written.
pub type AST = Vec<Statement>;

/// A value as contracts speak of it.
pub enum ValueView {
    Str(Seq<char>),
    Int(int),
}

/// A declaration as contracts speak of it.
pub struct DeclarationView {
    pub mutable: bool,
    pub name: Seq<char>,
    pub value: ValueView,
}

/// A call as contracts speak of it.
pub struct CallView {
    pub name: Seq<char>,
    pub arguments: Seq<ValueView>,
}

/// A statement as contracts speak of it.
pub enum StatementView {
    VariableDeclaration(DeclarationView),
    FunctionCall(CallView),
}

impl DeepView for ValueType {
    type V = ValueView;

    open spec fn deep_view(&self) -> ValueView {
        match self {
            ValueType::Str(text) => ValueView::Str(text@),
            ValueType::Int(number) => ValueView::Int(*number as int),
        }
    }
}

impl View for ValueType {
    type V = ValueView;

    open spec fn view(&self) -> ValueView {
        self.deep_view()
    }
}

impl DeepView for VariableDeclaration {
    type V = DeclarationView;

    open spec fn deep_view(&self) -> DeclarationView {
        DeclarationView { mutable: self.mutable, name: self.name@, value: self.value@ }
    }
}

impl View for VariableDeclaration {
    type V = DeclarationView;

    open spec fn view(&self) -> DeclarationView {
        self.deep_view()
    }
}

impl DeepView for FunctionCall {
    type V = CallView;

    open spec fn deep_view(&self) -> CallView {
        CallView { name: self.name@, arguments: self.arguments.deep_view() }
    }
}

impl View for FunctionCall {
    type V = CallView;

    open spec fn view(&self) -> CallView {
        self.deep_view()
    }
}

impl DeepView for Statement {
    type V = StatementView;

    open spec fn deep_view(&self) -> StatementView {
        match self {
            Statement::VariableDeclaration(declaration) => StatementView::VariableDeclaration(
                declaration@,
            ),
            Statement::FunctionCall(call) => StatementView::FunctionCall(call@),
        }
    }
}

impl View for Statement {
    type V = StatementView;

    open spec fn view(&self) -> StatementView {
        self.deep_view()
    }
}

} // verus!
