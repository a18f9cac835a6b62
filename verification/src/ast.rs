//! The abstract syntax tree: tagged variants for expressions and statements,
//! and a program as an ordered sequence of statements.

use vstd::prelude::*;

use crate::token::{SpecToken, Token};

verus! {

/// An expression. The current grammar builds only leaves — integer literals,
/// boolean literals and identifiers — though the parser's registry reserves
/// room for compound forms.
#[derive(Debug, PartialEq, Eq)]
pub enum Expression {
    Integer(i32),
    Boolean(bool),
    Identifier(Token),
}

/// A statement: a `let` binding, a `return`, or a bare expression used as a
/// statement. Each statement exclusively owns its expression subtree.
#[derive(Debug, PartialEq, Eq)]
pub enum Statement {
    Let(Token, Expression),
    Return(Expression),
    Expression(Expression),
}

/// The root of the tree: an ordered sequence of statements, in source order.
#[derive(Debug)]
pub struct Program {
    pub statements: Vec<Statement>,
}

/// The mathematical shape of an expression.
pub enum SpecExpression {
    Integer(int),
    Boolean(bool),
    Identifier(SpecToken),
}

/// The mathematical shape of a statement.
pub enum SpecStatement {
    Let(SpecToken, SpecExpression),
    Return(SpecExpression),
    Expression(SpecExpression),
}

impl View for Expression {
    type V = SpecExpression;

    open spec fn view(&self) -> SpecExpression {
        match self {
            Expression::Integer(v) => SpecExpression::Integer(*v as int),
            Expression::Boolean(b) => SpecExpression::Boolean(*b),
            Expression::Identifier(t) => SpecExpression::Identifier(t@),
        }
    }
}

impl View for Statement {
    type V = SpecStatement;

    open spec fn view(&self) -> SpecStatement {
        match self {
            Statement::Let(t, e) => SpecStatement::Let(t@, e@),
            Statement::Return(e) => SpecStatement::Return(e@),
            Statement::Expression(e) => SpecStatement::Expression(e@),
        }
    }
}

impl View for Program {
    type V = Seq<SpecStatement>;

    open spec fn view(&self) -> Seq<SpecStatement> {
        self.statements@.map_values(|s: Statement| s@)
    }
}

/// A statement is well formed when the token a `let` binds is an identifier,
/// never any other token kind.
pub open spec fn stmt_wf(s: SpecStatement) -> bool {
    match s {
        SpecStatement::Let(t, _) => t is Identifier,
        _ => true,
    }
}

} // verus!
