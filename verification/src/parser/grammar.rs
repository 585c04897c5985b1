//! The grammar of the language, stated over the tokens of a source text:
//!
//! ```text
//! program    := statement*
//! statement  := "puts" expression
//! expression := term | expression ("+" | "-") term
//! term       := factor | term ("*" | "/") factor
//! factor     := number | "(" expression ")"
//! ```
//!
//! `*` and `/` bind tighter than `+` and `-`, and operators of one tier
//! group to the left: both are said by the shape of the rules.

use crate::ast::{BinaryOperator, ExpressionView, StatementView};
use crate::parser::lexer::{scan, scan_stop, Token, TokenKind};
use vstd::prelude::*;

verus! {

/// The operator that a token of kind `kind` is at the tier of `+` and `-`.
pub open spec fn additive(kind: TokenKind) -> Option<BinaryOperator> {
    match kind {
        TokenKind::Plus => Some(BinaryOperator::Add),
        TokenKind::Minus => Some(BinaryOperator::Subtract),
        _ => None,
    }
}

/// The operator that a token of kind `kind` is at the tier of `*` and `/`.
pub open spec fn multiplicative(kind: TokenKind) -> Option<BinaryOperator> {
    match kind {
        TokenKind::Star => Some(BinaryOperator::Multiply),
        TokenKind::Slash => Some(BinaryOperator::Divide),
        _ => None,
    }
}

/// The bytes of `source` that spell `token`.
pub open spec fn spelling(source: Seq<u8>, token: Token) -> Seq<u8> {
    source.subrange(token.start as int, token.end as int)
}

/// The tokens `from..to` are a factor, and `tree` is its syntax tree: one
/// numeral, or an expression in parentheses, which has the tree of that
/// expression.
pub open spec fn is_factor(
    source: Seq<u8>,
    tokens: Seq<Token>,
    from: int,
    to: int,
    tree: ExpressionView,
) -> bool
    decreases to - from, 0int,
{
    &&& 0 <= from < to <= tokens.len()
    &&& {
        ||| to == from + 1 && tokens[from].kind == TokenKind::Number && tree
            == ExpressionView::Number(spelling(source, tokens[from]))
        ||| tokens[from].kind == TokenKind::LeftParen && tokens[to - 1].kind
            == TokenKind::RightParen && is_expression(source, tokens, from + 1, to - 1, tree)
    }
}

/// The tokens `from..to` are a term, and `tree` is its syntax tree: a factor,
/// or a term, `*` or `/`, and a factor.
pub open spec fn is_term(
    source: Seq<u8>,
    tokens: Seq<Token>,
    from: int,
    to: int,
    tree: ExpressionView,
) -> bool
    decreases to - from, 1int,
{
    ||| is_factor(source, tokens, from, to, tree)
    ||| tree matches ExpressionView::BinaryOp { left, op, right } && exists|at: int|
        0 <= from < at < to <= tokens.len() && multiplicative((#[trigger] tokens[at]).kind) == Some(op)
            && is_term(source, tokens, from, at, *left) && is_factor(
            source,
            tokens,
            at + 1,
            to,
            *right,
        )
}

/// The tokens `from..to` are an expression, and `tree` is its syntax tree: a
/// term, or an expression, `+` or `-`, and a term.
pub open spec fn is_expression(
    source: Seq<u8>,
    tokens: Seq<Token>,
    from: int,
    to: int,
    tree: ExpressionView,
) -> bool
    decreases to - from, 2int,
{
    ||| is_term(source, tokens, from, to, tree)
    ||| tree matches ExpressionView::BinaryOp { left, op, right } && exists|at: int|
        0 <= from < at < to <= tokens.len() && additive((#[trigger] tokens[at]).kind) == Some(op)
            && is_expression(source, tokens, from, at, *left) && is_term(
            source,
            tokens,
            at + 1,
            to,
            *right,
        )
}

/// The first `to` tokens are a program with the statements `statements`:
/// none, or a program followed by `puts` and an expression.
pub open spec fn is_program(
    source: Seq<u8>,
    tokens: Seq<Token>,
    to: int,
    statements: Seq<StatementView>,
) -> bool
    decreases statements.len(),
{
    if statements.len() == 0 {
        to == 0
    } else {
        statements.last() matches StatementView::Puts(tree) && exists|at: int|
            0 <= at < to <= tokens.len() && (#[trigger] tokens[at]).kind == TokenKind::Puts
                && is_program(source, tokens, at, statements.drop_last())
                && is_expression(source, tokens, at + 1, to, tree)
    }
}

/// `source` is a program of the language, and `statements` are its
/// statements: all of the text falls into tokens and white space, and the
/// tokens are a program.
pub open spec fn parses_to(source: Seq<u8>, statements: Seq<StatementView>) -> bool {
    &&& source.len() <= usize::MAX
    &&& scan_stop(source, 0) == source.len()
    &&& is_program(source, scan(source, 0), scan(source, 0).len() as int, statements)
}

/// `source` is a program of the language.
pub open spec fn in_language(source: Seq<u8>) -> bool {
    exists|statements: Seq<StatementView>| parses_to(source, statements)
}

} // verus!
