//! From source text to the syntax tree.
//!
//! [`BelasovaParser`] splits a text into tokens and holds them against the
//! grammar; [`parse`] then builds the tree by recursive descent over tokens
//! that are known to be a program.

mod descent;
pub mod error;
pub mod grammar;
pub mod layout;
pub mod lexer;
pub mod recognizer;
pub mod theorems;

pub use crate::parser::error::{Expected, Found, ParseError};
pub use crate::parser::recognizer::BelasovaParser;

use crate::ast::{
    statements_view, BinaryOperator, Decimal, Expression, Program, Statement, StatementView,
};
use crate::parser::descent::{
    expression_at, expression_rest, factor_at, lemma_descent_ends, lemma_descent_parses,
    lemma_descent_sound, lemma_program_rest_sound, program_rest, term_at, term_rest,
};
use crate::parser::grammar::{
    additive, in_language, is_expression, is_factor, is_term, multiplicative, parses_to,
};
use crate::parser::theorems::lemma_diagnosis;
use crate::parser::lexer::{lemma_lexeme, lemma_scan_lexemes, scan, Token, TokenKind};
use crate::parser::recognizer::diagnosis;
use vstd::prelude::*;
use vstd::slice::slice_subrange;
use vstd::string::StringSliceAdditionalSpecFns;

verus! {

/// Parses `source`. Returns the program that `source` is, or, if it is
/// none, what is wrong with it. Nothing of a text that is no program is
/// parsed.
pub fn parse(source: &str) -> (result: Result<Program, ParseError>)
    ensures
        match result {
            Ok(program) => parses_to(source.spec_bytes(), program@),
            Err(error) => !in_language(source.spec_bytes()) && diagnosis(source.spec_bytes())
                == Some(error),
        },
{
    let bytes = source.as_bytes();
    let tokens = match BelasovaParser::parse(source) {
        Ok(tokens) => tokens,
        Err(error) => {
            return Err(error);
        },
    };
    proof {
        assert(bytes@.len() == bytes.len());
        lemma_diagnosis(bytes@);
        lemma_descent_parses(bytes@);
    }
    let mut statements: Vec<Statement> = Vec::new();
    let mut at: usize = 0;
    assert(statements_view(statements@) =~= Seq::empty());
    while at < tokens.len()
        invariant
            at <= tokens@.len(),
            bytes@.len() <= usize::MAX,
            tokens@ == scan(bytes@, 0),
            program_rest(bytes@, tokens@, 0, Seq::empty()) is Some,
            program_rest(bytes@, tokens@, at as int, statements_view(statements@)) == program_rest(
                bytes@,
                tokens@,
                0,
                Seq::empty(),
            ),
        decreases tokens@.len() - at,
    {
        proof {
            lemma_descent_ends(bytes@, tokens@, at + 1, 2);
        }
        let ghost done = statements_view(statements@);
        let (tree, next) = parse_expression(bytes, &tokens, at + 1);
        statements.push(Statement::Puts(tree));
        at = next;
        assert(statements_view(statements@) =~= done.push(StatementView::Puts(tree@)));
    }
    proof {
        lemma_program_rest_sound(bytes@, tokens@, 0, Seq::empty());
    }
    Ok(Program { statements })
}

/// Builds the tree of the expression that begins at token `at`.
fn parse_expression(source: &[u8], tokens: &Vec<Token>, at: usize) -> (result: (Expression, usize))
    requires
        source@.len() <= usize::MAX,
        tokens@ == scan(source@, 0),
        expression_at(source@, tokens@, at as int) is Some,
    ensures
        expression_at(source@, tokens@, at as int) == Some((result.0@, result.1 as int)),
        is_expression(source@, tokens@, at as int, result.1 as int, result.0@),
    decreases tokens@.len() - at, 4int,
{
    proof {
        lemma_descent_ends(source@, tokens@, at as int, 1);
        lemma_descent_sound(source@, tokens@, at as int, 2);
    }
    let (mut tree, mut next) = parse_term(source, tokens, at);
    loop
        invariant
            source@.len() <= usize::MAX,
            tokens@ == scan(source@, 0),
            at < next <= tokens@.len(),
            expression_at(source@, tokens@, at as int) is Some,
            expression_rest(source@, tokens@, next as int, tree@) == expression_at(
                source@,
                tokens@,
                at as int,
            ),
        ensures
            expression_at(source@, tokens@, at as int) == Some((tree@, next as int)),
        decreases tokens@.len() - next,
    {
        if next >= tokens.len() {
            break ;
        }
        let op = match additive_operator(tokens[next].kind) {
            Some(op) => op,
            None => {
                break ;
            },
        };
        proof {
            lemma_descent_ends(source@, tokens@, next + 1, 1);
        }
        let (right, after) = parse_term(source, tokens, next + 1);
        tree = Expression::BinaryOp { left: Box::new(tree), op, right: Box::new(right) };
        next = after;
    }
    (tree, next)
}

/// Builds the tree of the term that begins at token `at`.
fn parse_term(source: &[u8], tokens: &Vec<Token>, at: usize) -> (result: (Expression, usize))
    requires
        source@.len() <= usize::MAX,
        tokens@ == scan(source@, 0),
        term_at(source@, tokens@, at as int) is Some,
    ensures
        term_at(source@, tokens@, at as int) == Some((result.0@, result.1 as int)),
        is_term(source@, tokens@, at as int, result.1 as int, result.0@),
    decreases tokens@.len() - at, 2int,
{
    proof {
        lemma_descent_ends(source@, tokens@, at as int, 0);
        lemma_descent_sound(source@, tokens@, at as int, 1);
    }
    let (mut tree, mut next) = parse_factor(source, tokens, at);
    loop
        invariant
            source@.len() <= usize::MAX,
            tokens@ == scan(source@, 0),
            at < next <= tokens@.len(),
            term_at(source@, tokens@, at as int) is Some,
            term_rest(source@, tokens@, next as int, tree@) == term_at(
                source@,
                tokens@,
                at as int,
            ),
        ensures
            term_at(source@, tokens@, at as int) == Some((tree@, next as int)),
        decreases tokens@.len() - next,
    {
        if next >= tokens.len() {
            break ;
        }
        let op = match multiplicative_operator(tokens[next].kind) {
            Some(op) => op,
            None => {
                break ;
            },
        };
        proof {
            lemma_descent_ends(source@, tokens@, next + 1, 0);
        }
        let (right, after) = parse_factor(source, tokens, next + 1);
        tree = Expression::BinaryOp { left: Box::new(tree), op, right: Box::new(right) };
        next = after;
    }
    (tree, next)
}

/// Builds the tree of the factor that begins at token `at`.
fn parse_factor(source: &[u8], tokens: &Vec<Token>, at: usize) -> (result: (Expression, usize))
    requires
        source@.len() <= usize::MAX,
        tokens@ == scan(source@, 0),
        factor_at(source@, tokens@, at as int) is Some,
    ensures
        factor_at(source@, tokens@, at as int) == Some((result.0@, result.1 as int)),
        is_factor(source@, tokens@, at as int, result.1 as int, result.0@),
    decreases tokens@.len() - at, 0int,
{
    proof {
        lemma_descent_sound(source@, tokens@, at as int, 0);
    }
    let token = tokens[at];
    assert(at < tokens.len());
    match token.kind {
        TokenKind::Number => {
            proof {
                lemma_scan_lexemes(source@, 0, at as int);
                lemma_lexeme(source@, token.start as int);
            }
            let text = slice_subrange(source, token.start, token.end);
            (Expression::Number(Decimal::from_numeral(text)), at + 1)
        },
        _ => {
            proof {
                lemma_descent_ends(source@, tokens@, at + 1, 2);
            }
            let (tree, close) = parse_expression(source, tokens, at + 1);
            (tree, close + 1)
        },
    }
}

/// The operator that a token of kind `kind` is at the tier of `+` and `-`.
fn additive_operator(kind: TokenKind) -> (op: Option<BinaryOperator>)
    ensures
        op == additive(kind),
{
    match kind {
        TokenKind::Plus => Some(BinaryOperator::Add),
        TokenKind::Minus => Some(BinaryOperator::Subtract),
        _ => None,
    }
}

/// The operator that a token of kind `kind` is at the tier of `*` and `/`.
fn multiplicative_operator(kind: TokenKind) -> (op: Option<BinaryOperator>)
    ensures
        op == multiplicative(kind),
{
    match kind {
        TokenKind::Star => Some(BinaryOperator::Multiply),
        TokenKind::Slash => Some(BinaryOperator::Divide),
        _ => None,
    }
}

} // verus!
