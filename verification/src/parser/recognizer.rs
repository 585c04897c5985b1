//! A recognizer for the language: one pass over the tokens that counts open
//! parentheses and knows at each token what may follow. It says whether a
//! text is a program and, if it is none, where it stops being one.

use crate::parser::error::{Expected, Found, ParseError};
use crate::parser::grammar::in_language;
use crate::parser::theorems::lemma_diagnosis;
use crate::parser::lexer::{scan, scan_stop, tokenize, Token, TokenKind};
use vstd::prelude::*;
use vstd::string::StringSliceAdditionalSpecFns;

verus! {

/// What the recognizer waits for.
#[derive(Debug, Clone, Copy, PartialEq, Eq, Structural)]
pub enum Stage {
    /// Nothing was read yet.
    Start,
    /// A numeral or `(` must follow.
    Operand,
    /// An expression is complete: an operator may follow, or what closes
    /// the expression.
    Operator,
}

/// The stage and the number of open parentheses after a token of kind
/// `kind` was read at `stage` with `depth` open parentheses, if such a token
/// may stand there.
pub open spec fn step(stage: Stage, depth: int, kind: TokenKind) -> Option<(Stage, int)> {
    match stage {
        Stage::Start => match kind {
            TokenKind::Puts => Some((Stage::Operand, 0)),
            _ => None,
        },
        Stage::Operand => match kind {
            TokenKind::Number => Some((Stage::Operator, depth)),
            TokenKind::LeftParen => Some((Stage::Operand, depth + 1)),
            _ => None,
        },
        Stage::Operator => match kind {
            TokenKind::Plus | TokenKind::Minus | TokenKind::Star | TokenKind::Slash => Some(
                (Stage::Operand, depth),
            ),
            TokenKind::RightParen => if depth > 0 {
                Some((Stage::Operator, depth - 1))
            } else {
                None
            },
            TokenKind::Puts => if depth == 0 {
                Some((Stage::Operand, 0))
            } else {
                None
            },
            _ => None,
        },
    }
}

/// Reads the tokens from `from` on, beginning at `stage` with `depth` open
/// parentheses. Returns the index of the first token that may not stand
/// where it does, or the number of tokens if there is none, with the stage
/// and the depth reached there.
pub open spec fn run(tokens: Seq<Token>, from: int, stage: Stage, depth: int) -> (int, Stage, int)
    decreases tokens.len() - from,
{
    if 0 <= from < tokens.len() {
        match step(stage, depth, tokens[from].kind) {
            Some((next, deeper)) => run(tokens, from + 1, next, deeper),
            None => (from, stage, depth),
        }
    } else {
        (from, stage, depth)
    }
}

/// `run` stops within the tokens.
pub proof fn lemma_run_stops(tokens: Seq<Token>, from: int, stage: Stage, depth: int)
    requires
        0 <= from <= tokens.len(),
    ensures
        from <= run(tokens, from, stage, depth).0 <= tokens.len(),
    decreases tokens.len() - from,
{
    if from < tokens.len() {
        if let Some((next, deeper)) = step(stage, depth, tokens[from].kind) {
            lemma_run_stops(tokens, from + 1, next, deeper);
        }
    }
}

/// A program may end at `stage` with `depth` open parentheses.
pub open spec fn accepting(stage: Stage, depth: int) -> bool {
    stage == Stage::Start || (stage == Stage::Operator && depth == 0)
}

/// What may follow at `stage` with `depth` open parentheses.
pub open spec fn expected(stage: Stage, depth: int) -> Expected {
    match stage {
        Stage::Start => Expected::Statement,
        Stage::Operand => Expected::Operand,
        Stage::Operator => if depth == 0 {
            Expected::OperatorOrStatement
        } else {
            Expected::OperatorOrClosing
        },
    }
}

/// What is wrong with `source`, if anything is: the first token that may not
/// stand where it does; else the first byte that neither is white space nor
/// begins a token; else the end of the text, where it comes too early.
pub open spec fn diagnosis(source: Seq<u8>) -> Option<ParseError> {
    let tokens = scan(source, 0);
    let (at, stage, depth) = run(tokens, 0, Stage::Start, 0);
    if at < tokens.len() {
        Some(
            ParseError {
                position: tokens[at].start,
                expected: expected(stage, depth),
                found: Found::Token(tokens[at].kind),
            },
        )
    } else if scan_stop(source, 0) < source.len() {
        Some(
            ParseError {
                position: scan_stop(source, 0) as usize,
                expected: expected(stage, depth),
                found: Found::Unrecognized,
            },
        )
    } else if !accepting(stage, depth) {
        Some(
            ParseError {
                position: source.len() as usize,
                expected: expected(stage, depth),
                found: Found::EndOfInput,
            },
        )
    } else {
        None
    }
}

/// The recognizer of the language.
pub struct BelasovaParser;

impl BelasovaParser {
    /// Splits `source` into tokens and holds them against the grammar.
    /// Returns the tokens if `source` is a program, else what is wrong with
    /// it: the first token that cannot stand where it does, else the first
    /// byte that begins no token, else the end of the text.
    pub fn parse(source: &str) -> (result: Result<Vec<Token>, ParseError>)
        ensures
            match result {
                Ok(tokens) => in_language(source.spec_bytes()) && tokens@ == scan(
                    source.spec_bytes(),
                    0,
                ),
                Err(error) => !in_language(source.spec_bytes()) && diagnosis(source.spec_bytes())
                    == Some(error),
            },
    {
        let bytes = source.as_bytes();
        let length: usize = bytes.len();
        proof {
            lemma_diagnosis(bytes@);
        }
        let (tokens, stop) = tokenize(bytes);
        let mut index: usize = 0;
        let mut stage = Stage::Start;
        let mut depth: usize = 0;
        while index < tokens.len()
            invariant
                index <= tokens.len(),
                depth <= index,
                tokens@ == scan(source.spec_bytes(), 0),
                in_language(source.spec_bytes()) <==> diagnosis(source.spec_bytes()) is None,
                run(tokens@, 0, Stage::Start, 0) == run(tokens@, index as int, stage, depth as int),
            decreases tokens.len() - index,
        {
            let token = tokens[index];
            match advance(stage, depth, token.kind) {
                Some((next, deeper)) => {
                    stage = next;
                    depth = deeper;
                    index = index + 1;
                },
                None => {
                    return Err(
                        ParseError {
                            position: token.start,
                            expected: what_follows(stage, depth),
                            found: Found::Token(token.kind),
                        },
                    );
                },
            }
        }
        if stop < length {
            Err(
                ParseError {
                    position: stop,
                    expected: what_follows(stage, depth),
                    found: Found::Unrecognized,
                },
            )
        } else if stage == Stage::Operand || (stage == Stage::Operator && depth > 0) {
            Err(
                ParseError {
                    position: length,
                    expected: what_follows(stage, depth),
                    found: Found::EndOfInput,
                },
            )
        } else {
            Ok(tokens)
        }
    }
}

/// Reads a token of kind `kind` at `stage` with `depth` open parentheses.
fn advance(stage: Stage, depth: usize, kind: TokenKind) -> (next: Option<(Stage, usize)>)
    requires
        depth < usize::MAX,
    ensures
        match next {
            Some((stage_after, depth_after)) => step(stage, depth as int, kind) == Some(
                (stage_after, depth_after as int),
            ),
            None => step(stage, depth as int, kind) is None,
        },
        next matches Some((_, depth_after)) ==> depth_after <= depth + 1,
{
    match stage {
        Stage::Start => match kind {
            TokenKind::Puts => Some((Stage::Operand, 0)),
            _ => None,
        },
        Stage::Operand => match kind {
            TokenKind::Number => Some((Stage::Operator, depth)),
            TokenKind::LeftParen => Some((Stage::Operand, depth + 1)),
            _ => None,
        },
        Stage::Operator => match kind {
            TokenKind::Plus | TokenKind::Minus | TokenKind::Star | TokenKind::Slash => Some(
                (Stage::Operand, depth),
            ),
            TokenKind::RightParen => if depth > 0 {
                Some((Stage::Operator, depth - 1))
            } else {
                None
            },
            TokenKind::Puts => if depth == 0 {
                Some((Stage::Operand, 0))
            } else {
                None
            },
            _ => None,
        },
    }
}

/// What may follow at `stage` with `depth` open parentheses.
fn what_follows(stage: Stage, depth: usize) -> (follows: Expected)
    ensures
        follows == expected(stage, depth as int),
{
    match stage {
        Stage::Start => Expected::Statement,
        Stage::Operand => Expected::Operand,
        Stage::Operator => if depth == 0 {
            Expected::OperatorOrStatement
        } else {
            Expected::OperatorOrClosing
        },
    }
}

} // verus!
