//! The syntax tree that the parser builds.

use std::fmt::Debug;
use vstd::prelude::*;

use crate::lexer::TokenType;

verus! {

/// Marks the nodes of the syntax tree.
pub trait Ast: Debug {

}

/// A source file: its definitions in order.
#[derive(Debug)]
pub struct File {
    pub definitions: Vec<Definition>,
}

impl Ast for File {

}

#[derive(Debug)]
pub enum Definition {
    Function(Function),
    Statement(Statement),
}

impl Ast for Definition {

}

#[derive(Debug)]
pub struct Function {
    pub name: String,
    pub body: Block,
}

impl Ast for Function {

}

/// A block: its statements in order. The trailing value is kept for a later
/// version of the grammar and is absent from every block that the parser builds.
#[derive(Debug)]
pub struct Block {
    pub statements: Vec<Statement>,
    pub value: Option<Expression>,
}

impl Ast for Block {

}

#[derive(Debug)]
pub enum Statement {
    Expression(Expression),
    VariableDeclaration {
        kind: VariableKind,
        name: String,
        type_: Type,
        initial_value: Option<Expression>,
    },
}

impl Ast for Statement {

}

#[derive(Debug)]
pub enum Expression {
    NaturalLiteral(i128),
    UnaryOperation(UnaryOperator, Box<Expression>),
    BinaryOperation { operator: BinaryOperator, lhs: Box<Expression>, rhs: Box<Expression> },
}

impl Ast for Expression {

}

#[derive(Debug, Clone, Copy, PartialEq, Eq, Structural)]
pub enum VariableKind {
    /// `const`
    Immutable,
    /// `var`
    Mutable,
}

#[derive(Debug, Clone, Copy, PartialEq, Eq, Structural)]
pub enum UnaryOperator {
    Plus,
    Minus,
    Not,
    Reference,
    Dereference,
}

impl UnaryOperator {
    /// The unary operator that a token of kind `token_type` stands for.
    pub open spec fn of_token_type(token_type: TokenType) -> Option<UnaryOperator> {
        match token_type {
            TokenType::Plus => Some(UnaryOperator::Plus),
            TokenType::Minus => Some(UnaryOperator::Minus),
            _ => None,
        }
    }

    pub fn from_token_type(token_type: TokenType) -> (operator: Option<Self>)
        ensures
            operator == Self::of_token_type(token_type),
    {
        match token_type {
            TokenType::Plus => Some(Self::Plus),
            TokenType::Minus => Some(Self::Minus),
            _ => None,
        }
    }
}

#[derive(Debug, Clone, Copy, PartialEq, Eq, Structural)]
pub enum BinaryOperator {
    Add,
    Subtract,
    Multiply,
    Divide,
}

impl BinaryOperator {
    /// The binary operator that a token of kind `token_type` stands for.
    pub open spec fn of_token_type(token_type: TokenType) -> Option<BinaryOperator> {
        match token_type {
            TokenType::Plus => Some(BinaryOperator::Add),
            TokenType::Minus => Some(BinaryOperator::Subtract),
            TokenType::Star => Some(BinaryOperator::Multiply),
            TokenType::Slash => Some(BinaryOperator::Divide),
            _ => None,
        }
    }

    pub fn from_token_type(token_type: TokenType) -> (operator: Option<Self>)
        ensures
            operator == Self::of_token_type(token_type),
    {
        match token_type {
            TokenType::Plus => Some(Self::Add),
            TokenType::Minus => Some(Self::Subtract),
            TokenType::Star => Some(Self::Multiply),
            TokenType::Slash => Some(Self::Divide),
            _ => None,
        }
    }
}

#[derive(Debug, Clone, Copy, PartialEq, Eq, Structural)]
pub enum Type {
    N64,
}

/// A statement as a mathematical value: the name is a sequence of characters.
pub enum StatementView {
    Expression(Expression),
    VariableDeclaration {
        kind: VariableKind,
        name: Seq<char>,
        type_: Type,
        initial_value: Option<Expression>,
    },
}

/// A block as a mathematical value.
pub struct BlockView {
    pub statements: Seq<StatementView>,
    pub value: Option<Expression>,
}

/// A function as a mathematical value.
pub struct FunctionView {
    pub name: Seq<char>,
    pub body: BlockView,
}

/// A definition as a mathematical value.
pub enum DefinitionView {
    Function(FunctionView),
    Statement(StatementView),
}

/// A file as a mathematical value.
pub struct FileView {
    pub definitions: Seq<DefinitionView>,
}

impl View for Statement {
    type V = StatementView;

    open spec fn view(&self) -> StatementView {
        match *self {
            Statement::Expression(expression) => StatementView::Expression(expression),
            Statement::VariableDeclaration { kind, name, type_, initial_value } => {
                StatementView::VariableDeclaration { kind, name: name@, type_, initial_value }
            },
        }
    }
}

impl View for Block {
    type V = BlockView;

    open spec fn view(&self) -> BlockView {
        BlockView {
            statements: self.statements@.map_values(|statement: Statement| statement@),
            value: self.value,
        }
    }
}

impl View for Function {
    type V = FunctionView;

    open spec fn view(&self) -> FunctionView {
        FunctionView { name: self.name@, body: self.body@ }
    }
}

impl View for Definition {
    type V = DefinitionView;

    open spec fn view(&self) -> DefinitionView {
        match *self {
            Definition::Function(function) => DefinitionView::Function(function@),
            Definition::Statement(statement) => DefinitionView::Statement(statement@),
        }
    }
}

impl View for File {
    type V = FileView;

    open spec fn view(&self) -> FileView {
        FileView { definitions: self.definitions@.map_values(|definition: Definition| definition@) }
    }
}

} // verus!
