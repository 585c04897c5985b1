//! The evaluator: it walks the tree of each statement and reduces it to one
//! value.
//!
//! The library holds no numbers of its own. What a numeral is worth and what
//! each of the four operators does to two values is handed to the evaluator
//! as an [`Arithmetic`], and every contract here speaks of what the
//! functions of that arithmetic promise of their results.

use crate::ast::{BinaryOperator, Decimal, Expression, Program, Statement};
use vstd::prelude::*;

verus! {

/// `value` is a value of `expression`, where `number` says which values a
/// numeral has and `combine` which values an operator has on two values: a
/// numeral has the values that `number` gives it, and two expressions joined
/// by an operator have the values that `combine` gives the operator on a
/// value of the left expression and a value of the right one.
pub open spec fn reduces<V>(
    expression: Expression,
    number: spec_fn(Decimal, V) -> bool,
    combine: spec_fn(BinaryOperator, V, V, V) -> bool,
    value: V,
) -> bool
    decreases expression,
{
    match expression {
        Expression::Number(decimal) => number(decimal, value),
        Expression::BinaryOp { left, op, right } => exists|l: V, r: V|
            reduces(*left, number, combine, l) && reduces(*right, number, combine, r)
                && #[trigger] combine(op, l, r, value),
    }
}

/// The value of `expression`, where `number` is the value of a numeral and
/// `apply` the value of an operator on two values.
pub open spec fn value_of<V>(
    expression: Expression,
    number: spec_fn(Decimal) -> V,
    apply: spec_fn(BinaryOperator, V, V) -> V,
) -> V
    decreases expression,
{
    match expression {
        Expression::Number(decimal) => number(decimal),
        Expression::BinaryOp { left, op, right } => apply(
            op,
            value_of(*left, number, apply),
            value_of(*right, number, apply),
        ),
    }
}

/// The numbers that a program computes with: the value of a numeral, and the
/// sum, difference, product and quotient of two values.
pub struct Arithmetic<N, P, M, T, D> {
    pub number: N,
    pub add: P,
    pub subtract: M,
    pub multiply: T,
    pub divide: D,
}

impl<N, P, M, T, D> Arithmetic<N, P, M, T, D> {
    /// Each function of the arithmetic may be called on every numeral and
    /// on every two values.
    pub open spec fn total<V>(self) -> bool where
        N: Fn(&Decimal) -> V,
        P: Fn(V, V) -> V,
        M: Fn(V, V) -> V,
        T: Fn(V, V) -> V,
        D: Fn(V, V) -> V,
     {
        &&& forall|decimal: &Decimal| call_requires(self.number, (decimal,))
        &&& forall|left: V, right: V| call_requires(self.add, (left, right))
        &&& forall|left: V, right: V| call_requires(self.subtract, (left, right))
        &&& forall|left: V, right: V| call_requires(self.multiply, (left, right))
        &&& forall|left: V, right: V| call_requires(self.divide, (left, right))
    }

    /// Which values a numeral has: those that `number` may return for it.
    pub open spec fn numbers<V>(self) -> spec_fn(Decimal, V) -> bool where
        N: Fn(&Decimal) -> V,
        P: Fn(V, V) -> V,
        M: Fn(V, V) -> V,
        T: Fn(V, V) -> V,
        D: Fn(V, V) -> V,
     {
        |decimal: Decimal, value: V| call_ensures(self.number, (&decimal,), value)
    }

    /// Which values an operator has on two values: those that the function
    /// for it may return for them, `add` for `Add`, `subtract` for
    /// `Subtract`, `multiply` for `Multiply` and `divide` for `Divide`.
    pub open spec fn combines<V>(self) -> spec_fn(BinaryOperator, V, V, V) -> bool where
        N: Fn(&Decimal) -> V,
        P: Fn(V, V) -> V,
        M: Fn(V, V) -> V,
        T: Fn(V, V) -> V,
        D: Fn(V, V) -> V,
     {
        |op: BinaryOperator, left: V, right: V, value: V|
            match op {
                BinaryOperator::Add => call_ensures(self.add, (left, right), value),
                BinaryOperator::Subtract => call_ensures(self.subtract, (left, right), value),
                BinaryOperator::Multiply => call_ensures(self.multiply, (left, right), value),
                BinaryOperator::Divide => call_ensures(self.divide, (left, right), value),
            }
    }
}

/// `value` is a value of `expression` in `arithmetic`: one that the
/// functions of `arithmetic` may return when the tree is reduced with them.
pub open spec fn evaluates<V, N, P, M, T, D>(
    expression: Expression,
    arithmetic: Arithmetic<N, P, M, T, D>,
    value: V,
) -> bool where
    N: Fn(&Decimal) -> V,
    P: Fn(V, V) -> V,
    M: Fn(V, V) -> V,
    T: Fn(V, V) -> V,
    D: Fn(V, V) -> V,
 {
    reduces(expression, arithmetic.numbers(), arithmetic.combines(), value)
}

/// The expression that `statement` prints.
pub open spec fn printed(statement: Statement) -> Expression {
    match statement {
        Statement::Puts(expression) => expression,
    }
}

/// The evaluator of programs.
pub struct Interpreter;

impl Interpreter {
    /// Makes an evaluator.
    pub fn new() -> Self {
        Interpreter
    }

    /// Runs `program`: returns the values that its statements print, one
    /// for each statement, in the order of the statements.
    pub fn interpret<V, N, P, M, T, D>(
        &self,
        program: Program,
        arithmetic: &Arithmetic<N, P, M, T, D>,
    ) -> (values: Vec<V>) where
        N: Fn(&Decimal) -> V,
        P: Fn(V, V) -> V,
        M: Fn(V, V) -> V,
        T: Fn(V, V) -> V,
        D: Fn(V, V) -> V,

        requires
            arithmetic.total(),
        ensures
            values@.len() == program.statements@.len(),
            forall|i: int|
                0 <= i < values@.len() ==> evaluates(
                    printed(program.statements@[i]),
                    *arithmetic,
                    #[trigger] values@[i],
                ),
    {
        let mut values: Vec<V> = Vec::new();
        let mut done: usize = 0;
        while done < program.statements.len()
            invariant
                done <= program.statements@.len(),
                values@.len() == done,
                arithmetic.total(),
                forall|i: int|
                    0 <= i < done ==> evaluates(
                        printed(program.statements@[i]),
                        *arithmetic,
                        #[trigger] values@[i],
                    ),
            decreases program.statements@.len() - done,
        {
            match &program.statements[done] {
                Statement::Puts(expression) => {
                    let value = self.evaluate_expression(expression, arithmetic);
                    values.push(value);
                },
            }
            done = done + 1;
        }
        values
    }

    /// Reduces `expression` to a value: the left operand of an operator
    /// before the right one, the operator after both.
    pub fn evaluate_expression<V, N, P, M, T, D>(
        &self,
        expression: &Expression,
        arithmetic: &Arithmetic<N, P, M, T, D>,
    ) -> (value: V) where
        N: Fn(&Decimal) -> V,
        P: Fn(V, V) -> V,
        M: Fn(V, V) -> V,
        T: Fn(V, V) -> V,
        D: Fn(V, V) -> V,

        requires
            arithmetic.total(),
        ensures
            evaluates(*expression, *arithmetic, value),
        decreases expression,
    {
        match expression {
            Expression::Number(decimal) => {
                let value = (arithmetic.number)(decimal);
                assert((arithmetic.numbers())(*decimal, value));
                value
            },
            Expression::BinaryOp { left, op, right } => {
                let left_value = self.evaluate_expression(left, arithmetic);
                let right_value = self.evaluate_expression(right, arithmetic);
                let value = match op {
                    BinaryOperator::Add => (arithmetic.add)(left_value, right_value),
                    BinaryOperator::Subtract => (arithmetic.subtract)(left_value, right_value),
                    BinaryOperator::Multiply => (arithmetic.multiply)(left_value, right_value),
                    BinaryOperator::Divide => (arithmetic.divide)(left_value, right_value),
                };
                assert((arithmetic.combines())(*op, left_value, right_value, value));
                value
            },
        }
    }
}

/// Where a numeral has no value but `number_of` it and an operator has no
/// value on two values but `apply` of them, an expression has no value but
/// `value_of` it: evaluation is a function of the tree.
pub proof fn lemma_reduces_to_value<V>(
    expression: Expression,
    number: spec_fn(Decimal, V) -> bool,
    combine: spec_fn(BinaryOperator, V, V, V) -> bool,
    number_of: spec_fn(Decimal) -> V,
    apply: spec_fn(BinaryOperator, V, V) -> V,
    value: V,
)
    requires
        forall|decimal: Decimal, v: V| #[trigger] number(decimal, v) ==> v == number_of(decimal),
        forall|op: BinaryOperator, l: V, r: V, v: V| #[trigger]
            combine(op, l, r, v) ==> v == apply(op, l, r),
        reduces(expression, number, combine, value),
    ensures
        value == value_of(expression, number_of, apply),
    decreases expression,
{
    match expression {
        Expression::Number(decimal) => {},
        Expression::BinaryOp { left, op, right } => {
            let (l, r) = choose|l: V, r: V|
                reduces(*left, number, combine, l) && reduces(*right, number, combine, r)
                    && #[trigger] combine(op, l, r, value);
            lemma_reduces_to_value(*left, number, combine, number_of, apply, l);
            lemma_reduces_to_value(*right, number, combine, number_of, apply, r);
        },
    }
}

/// Where a numeral has one value at most and an operator has one value at
/// most on two values, an expression has one value at most.
pub proof fn lemma_reduces_unique<V>(
    expression: Expression,
    number: spec_fn(Decimal, V) -> bool,
    combine: spec_fn(BinaryOperator, V, V, V) -> bool,
    first: V,
    second: V,
)
    requires
        forall|decimal: Decimal, a: V, b: V|
            #![trigger number(decimal, a), number(decimal, b)]
            number(decimal, a) && number(decimal, b) ==> a == b,
        forall|op: BinaryOperator, l: V, r: V, a: V, b: V|
            #![trigger combine(op, l, r, a), combine(op, l, r, b)]
            combine(op, l, r, a) && combine(op, l, r, b) ==> a == b,
        reduces(expression, number, combine, first),
        reduces(expression, number, combine, second),
    ensures
        first == second,
    decreases expression,
{
    match expression {
        Expression::Number(decimal) => {},
        Expression::BinaryOp { left, op, right } => {
            let (l1, r1) = choose|l: V, r: V|
                reduces(*left, number, combine, l) && reduces(*right, number, combine, r)
                    && #[trigger] combine(op, l, r, first);
            let (l2, r2) = choose|l: V, r: V|
                reduces(*left, number, combine, l) && reduces(*right, number, combine, r)
                    && #[trigger] combine(op, l, r, second);
            lemma_reduces_unique(*left, number, combine, l1, l2);
            lemma_reduces_unique(*right, number, combine, r1, r2);
        },
    }
}

} // verus!
