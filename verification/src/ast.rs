//! The abstract syntax tree of the language, and the mathematical model of it
//! that the contracts of the parser speak of.

pub use crate::decimal::Decimal;

use vstd::prelude::*;

verus! {

/// The four arithmetic operators of the language.
#[derive(Debug, Clone, Copy, PartialEq, Eq, Structural)]
pub enum BinaryOperator {
    Add,
    Subtract,
    Multiply,
    Divide,
}

/// An expression: a numeral, or two expressions joined by an operator.
#[derive(Debug, PartialEq, Eq)]
pub enum Expression {
    Number(Decimal),
    BinaryOp { left: Box<Expression>, op: BinaryOperator, right: Box<Expression> },
}

/// A statement. The language has one: print the value of an expression.
#[derive(Debug, PartialEq, Eq)]
pub enum Statement {
    Puts(Expression),
}

/// A program: statements, run from the first to the last.
#[derive(Debug, PartialEq, Eq)]
pub struct Program {
    pub statements: Vec<Statement>,
}

/// The mathematical model of an expression: the same tree, with each numeral
/// given by its text.
pub enum ExpressionView {
    Number(Seq<u8>),
    BinaryOp { left: Box<ExpressionView>, op: BinaryOperator, right: Box<ExpressionView> },
}

/// The mathematical model of a statement.
pub enum StatementView {
    Puts(ExpressionView),
}

/// The model of `expression`.
pub open spec fn expression_view(expression: Expression) -> ExpressionView
    decreases expression,
{
    match expression {
        Expression::Number(decimal) => ExpressionView::Number(decimal@),
        Expression::BinaryOp { left, op, right } => ExpressionView::BinaryOp {
            left: Box::new(expression_view(*left)),
            op,
            right: Box::new(expression_view(*right)),
        },
    }
}

impl View for Expression {
    type V = ExpressionView;

    open spec fn view(&self) -> ExpressionView {
        expression_view(*self)
    }
}

impl Clone for Expression {
    fn clone(&self) -> (copy: Self)
        ensures
            copy@ == self@,
        decreases self,
    {
        match self {
            Expression::Number(decimal) => Expression::Number(decimal.clone()),
            Expression::BinaryOp { left, op, right } => Expression::BinaryOp {
                left: Box::new((**left).clone()),
                op: *op,
                right: Box::new((**right).clone()),
            },
        }
    }
}

impl View for Statement {
    type V = StatementView;

    open spec fn view(&self) -> StatementView {
        match self {
            Statement::Puts(expression) => StatementView::Puts(expression@),
        }
    }
}

impl Clone for Statement {
    fn clone(&self) -> (copy: Self)
        ensures
            copy@ == self@,
    {
        match self {
            Statement::Puts(expression) => Statement::Puts(expression.clone()),
        }
    }
}

/// The models of `statements`, in their order.
pub open spec fn statements_view(statements: Seq<Statement>) -> Seq<StatementView> {
    Seq::new(statements.len(), |i: int| statements[i]@)
}

impl View for Program {
    type V = Seq<StatementView>;

    open spec fn view(&self) -> Seq<StatementView> {
        statements_view(self.statements@)
    }
}

impl Clone for Program {
    fn clone(&self) -> (copy: Self)
        ensures
            copy@ == self@,
    {
        let mut statements: Vec<Statement> = Vec::new();
        let mut done: usize = 0;
        while done < self.statements.len()
            invariant
                done <= self.statements@.len(),
                statements@.len() == done,
                forall|i: int| 0 <= i < done ==> statements@[i]@ == self.statements@[i]@,
            decreases self.statements@.len() - done,
        {
            statements.push(self.statements[done].clone());
            done = done + 1;
        }
        assert(statements_view(statements@) =~= statements_view(self.statements@));
        Program { statements }
    }
}

} // verus!
