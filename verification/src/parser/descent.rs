//! The parse that recursive descent computes, as a function of the tokens,
//! and the proofs that it is the parse that the grammar defines.

use crate::ast::{ExpressionView, StatementView};
use crate::parser::grammar::{
    additive, is_expression, is_factor, is_program, is_term, multiplicative, parses_to, spelling,
};
use crate::parser::lexer::{lemma_scan_stop, scan, scan_stop, Token, TokenKind};
use crate::parser::recognizer::{accepting, diagnosis, lemma_run_stops, run, Stage};
use vstd::prelude::*;

verus! {

/// The factor that begins at token `at`, with the index of the token after
/// it.
pub open spec fn factor_at(source: Seq<u8>, tokens: Seq<Token>, at: int) -> Option<
    (ExpressionView, int),
>
    decreases tokens.len() - at, 0int,
{
    if !(0 <= at < tokens.len()) {
        None
    } else if tokens[at].kind == TokenKind::Number {
        Some((ExpressionView::Number(spelling(source, tokens[at])), at + 1))
    } else if tokens[at].kind == TokenKind::LeftParen {
        match expression_at(source, tokens, at + 1) {
            Some((tree, close)) => if at < close < tokens.len() && tokens[close].kind
                == TokenKind::RightParen {
                Some((tree, close + 1))
            } else {
                None
            },
            None => None,
        }
    } else {
        None
    }
}

/// The term whose first factors have the tree `left` and end before token
/// `at`: as many `*` or `/` and factor as follow are joined to it from the
/// left.
pub open spec fn term_rest(
    source: Seq<u8>,
    tokens: Seq<Token>,
    at: int,
    left: ExpressionView,
) -> Option<(ExpressionView, int)>
    decreases tokens.len() - at, 1int,
{
    if 0 <= at < tokens.len() && multiplicative(tokens[at].kind) is Some {
        match factor_at(source, tokens, at + 1) {
            Some((right, next)) => if at < next <= tokens.len() {
                term_rest(
                    source,
                    tokens,
                    next,
                    ExpressionView::BinaryOp {
                        left: Box::new(left),
                        op: multiplicative(tokens[at].kind)->0,
                        right: Box::new(right),
                    },
                )
            } else {
                None
            },
            None => None,
        }
    } else {
        Some((left, at))
    }
}

/// The term that begins at token `at`.
pub open spec fn term_at(source: Seq<u8>, tokens: Seq<Token>, at: int) -> Option<
    (ExpressionView, int),
>
    decreases tokens.len() - at, 2int,
{
    match factor_at(source, tokens, at) {
        Some((first, next)) => if at < next <= tokens.len() {
            term_rest(source, tokens, next, first)
        } else {
            None
        },
        None => None,
    }
}

/// The expression whose first terms have the tree `left` and end before
/// token `at`.
pub open spec fn expression_rest(
    source: Seq<u8>,
    tokens: Seq<Token>,
    at: int,
    left: ExpressionView,
) -> Option<(ExpressionView, int)>
    decreases tokens.len() - at, 3int,
{
    if 0 <= at < tokens.len() && additive(tokens[at].kind) is Some {
        match term_at(source, tokens, at + 1) {
            Some((right, next)) => if at < next <= tokens.len() {
                expression_rest(
                    source,
                    tokens,
                    next,
                    ExpressionView::BinaryOp {
                        left: Box::new(left),
                        op: additive(tokens[at].kind)->0,
                        right: Box::new(right),
                    },
                )
            } else {
                None
            },
            None => None,
        }
    } else {
        Some((left, at))
    }
}

/// The expression that begins at token `at`.
pub open spec fn expression_at(source: Seq<u8>, tokens: Seq<Token>, at: int) -> Option<
    (ExpressionView, int),
>
    decreases tokens.len() - at, 4int,
{
    match term_at(source, tokens, at) {
        Some((first, next)) => if at < next <= tokens.len() {
            expression_rest(source, tokens, next, first)
        } else {
            None
        },
        None => None,
    }
}

/// The program whose first statements are `done` and end before token `at`.
pub open spec fn program_rest(
    source: Seq<u8>,
    tokens: Seq<Token>,
    at: int,
    done: Seq<StatementView>,
) -> Option<Seq<StatementView>>
    decreases tokens.len() - at,
{
    if !(0 <= at < tokens.len()) {
        Some(done)
    } else if tokens[at].kind == TokenKind::Puts {
        match expression_at(source, tokens, at + 1) {
            Some((tree, next)) => if at < next <= tokens.len() {
                program_rest(source, tokens, next, done.push(StatementView::Puts(tree)))
            } else {
                None
            },
            None => None,
        }
    } else {
        None
    }
}

/// No operator of the tier of `*` and `/` stands at token `at`.
pub open spec fn term_ends(tokens: Seq<Token>, at: int) -> bool {
    0 <= at < tokens.len() ==> multiplicative(tokens[at].kind) is None
}

/// No operator stands at token `at`.
pub open spec fn expression_ends(tokens: Seq<Token>, at: int) -> bool {
    0 <= at < tokens.len() ==> multiplicative(tokens[at].kind) is None && additive(
        tokens[at].kind,
    ) is None
}

/// What descent parses from `at` on lies within the tokens, is not empty,
/// and ends where no operator of its tier follows.
pub proof fn lemma_descent_ends(source: Seq<u8>, tokens: Seq<Token>, at: int, tier: int)
    requires
        0 <= tier <= 2,
    ensures
        tier == 0 ==> (factor_at(source, tokens, at) matches Some((_, next)) ==> 0 <= at < next
            <= tokens.len()),
        tier == 1 ==> (term_at(source, tokens, at) matches Some((_, next)) ==> 0 <= at < next
            <= tokens.len() && term_ends(tokens, next)),
        tier == 2 ==> (expression_at(source, tokens, at) matches Some((_, next)) ==> 0 <= at
            < next <= tokens.len() && expression_ends(tokens, next)),
    decreases tokens.len() - at, 2 * tier,
{
    if tier == 0 {
        if 0 <= at < tokens.len() && tokens[at].kind == TokenKind::LeftParen {
            lemma_descent_ends(source, tokens, at + 1, 2);
        }
    } else if tier == 1 {
        lemma_descent_ends(source, tokens, at, 0);
        if let Some((first, next)) = factor_at(source, tokens, at) {
            lemma_term_rest_ends(source, tokens, next, first);
        }
    } else {
        lemma_descent_ends(source, tokens, at, 1);
        if let Some((first, next)) = term_at(source, tokens, at) {
            lemma_expression_rest_ends(source, tokens, next, first);
        }
    }
}

/// A term that is continued from `at` ends at or after `at`, within the
/// tokens, where neither `*` nor `/` follows.
pub proof fn lemma_term_rest_ends(
    source: Seq<u8>,
    tokens: Seq<Token>,
    at: int,
    left: ExpressionView,
)
    requires
        0 <= at <= tokens.len(),
    ensures
        term_rest(source, tokens, at, left) matches Some((_, next)) ==> at <= next <= tokens.len()
            && term_ends(tokens, next),
    decreases tokens.len() - at, 1int,
{
    if at < tokens.len() && multiplicative(tokens[at].kind) is Some {
        lemma_descent_ends(source, tokens, at + 1, 0);
        if let Some((right, next)) = factor_at(source, tokens, at + 1) {
            lemma_term_rest_ends(
                source,
                tokens,
                next,
                ExpressionView::BinaryOp {
                    left: Box::new(left),
                    op: multiplicative(tokens[at].kind)->0,
                    right: Box::new(right),
                },
            );
        }
    }
}

/// An expression that is continued from `at`, where a term has ended, ends
/// at or after `at`, within the tokens, where no operator follows.
pub proof fn lemma_expression_rest_ends(
    source: Seq<u8>,
    tokens: Seq<Token>,
    at: int,
    left: ExpressionView,
)
    requires
        0 <= at <= tokens.len(),
        term_ends(tokens, at),
    ensures
        expression_rest(source, tokens, at, left) matches Some((_, next)) ==> at <= next
            <= tokens.len() && expression_ends(tokens, next),
    decreases tokens.len() - at, 3int,
{
    if at < tokens.len() && additive(tokens[at].kind) is Some {
        lemma_descent_ends(source, tokens, at + 1, 1);
        if let Some((right, next)) = term_at(source, tokens, at + 1) {
            lemma_expression_rest_ends(
                source,
                tokens,
                next,
                ExpressionView::BinaryOp {
                    left: Box::new(left),
                    op: additive(tokens[at].kind)->0,
                    right: Box::new(right),
                },
            );
        }
    }
}

/// What descent parses from `from` on is what the grammar says, of the same
/// tokens, that it is.
pub proof fn lemma_descent_sound(source: Seq<u8>, tokens: Seq<Token>, from: int, tier: int)
    requires
        0 <= tier <= 2,
    ensures
        tier == 0 ==> (factor_at(source, tokens, from) matches Some((tree, to)) ==> is_factor(
            source,
            tokens,
            from,
            to,
            tree,
        )),
        tier == 1 ==> (term_at(source, tokens, from) matches Some((tree, to)) ==> is_term(
            source,
            tokens,
            from,
            to,
            tree,
        )),
        tier == 2 ==> (expression_at(source, tokens, from) matches Some((tree, to))
            ==> is_expression(source, tokens, from, to, tree)),
    decreases tokens.len() - from, 2 * tier,
{
    if tier == 0 {
        if 0 <= from < tokens.len() && tokens[from].kind == TokenKind::LeftParen {
            lemma_descent_sound(source, tokens, from + 1, 2);
        }
    } else if tier == 1 {
        lemma_descent_sound(source, tokens, from, 0);
        lemma_descent_ends(source, tokens, from, 0);
        if let Some((first, next)) = factor_at(source, tokens, from) {
            lemma_term_rest_sound(source, tokens, from, next, first);
        }
    } else {
        lemma_descent_sound(source, tokens, from, 1);
        lemma_descent_ends(source, tokens, from, 1);
        if let Some((first, next)) = term_at(source, tokens, from) {
            lemma_expression_rest_sound(source, tokens, from, next, first);
        }
    }
}

/// A term that descent continues from `at` is a term of the grammar, if
/// what it continues is one.
pub proof fn lemma_term_rest_sound(
    source: Seq<u8>,
    tokens: Seq<Token>,
    from: int,
    at: int,
    left: ExpressionView,
)
    requires
        0 <= from < at <= tokens.len(),
        is_term(source, tokens, from, at, left),
    ensures
        term_rest(source, tokens, at, left) matches Some((tree, to)) ==> is_term(
            source,
            tokens,
            from,
            to,
            tree,
        ),
    decreases tokens.len() - at, 1int,
{
    if at < tokens.len() && multiplicative(tokens[at].kind) is Some {
        lemma_descent_sound(source, tokens, at + 1, 0);
        lemma_descent_ends(source, tokens, at + 1, 0);
        if let Some((right, next)) = factor_at(source, tokens, at + 1) {
            let joined = ExpressionView::BinaryOp {
                left: Box::new(left),
                op: multiplicative(tokens[at].kind)->0,
                right: Box::new(right),
            };
            assert(is_term(source, tokens, from, next, joined));
            lemma_term_rest_sound(source, tokens, from, next, joined);
        }
    }
}

/// An expression that descent continues from `at` is an expression of the
/// grammar, if what it continues is one.
pub proof fn lemma_expression_rest_sound(
    source: Seq<u8>,
    tokens: Seq<Token>,
    from: int,
    at: int,
    left: ExpressionView,
)
    requires
        0 <= from < at <= tokens.len(),
        is_expression(source, tokens, from, at, left),
    ensures
        expression_rest(source, tokens, at, left) matches Some((tree, to)) ==> is_expression(
            source,
            tokens,
            from,
            to,
            tree,
        ),
    decreases tokens.len() - at, 3int,
{
    if at < tokens.len() && additive(tokens[at].kind) is Some {
        lemma_descent_sound(source, tokens, at + 1, 1);
        lemma_descent_ends(source, tokens, at + 1, 1);
        if let Some((right, next)) = term_at(source, tokens, at + 1) {
            let joined = ExpressionView::BinaryOp {
                left: Box::new(left),
                op: additive(tokens[at].kind)->0,
                right: Box::new(right),
            };
            assert(is_expression(source, tokens, from, next, joined));
            lemma_expression_rest_sound(source, tokens, from, next, joined);
        }
    }
}

/// A program that descent continues from `at` is a program of the grammar,
/// if what it continues is one.
pub proof fn lemma_program_rest_sound(
    source: Seq<u8>,
    tokens: Seq<Token>,
    at: int,
    done: Seq<StatementView>,
)
    requires
        0 <= at <= tokens.len(),
        is_program(source, tokens, at, done),
    ensures
        program_rest(source, tokens, at, done) matches Some(statements) ==> is_program(
            source,
            tokens,
            tokens.len() as int,
            statements,
        ),
    decreases tokens.len() - at,
{
    if at < tokens.len() && tokens[at].kind == TokenKind::Puts {
        lemma_descent_sound(source, tokens, at + 1, 2);
        lemma_descent_ends(source, tokens, at + 1, 2);
        if let Some((tree, next)) = expression_at(source, tokens, at + 1) {
            let more = done.push(StatementView::Puts(tree));
            assert(more.drop_last() =~= done);
            assert(is_program(source, tokens, next, more));
            lemma_program_rest_sound(source, tokens, next, more);
        }
    }
}

/// Descent finds every factor of the grammar, with its tree.
pub proof fn lemma_factor_complete(
    source: Seq<u8>,
    tokens: Seq<Token>,
    from: int,
    to: int,
    tree: ExpressionView,
)
    requires
        is_factor(source, tokens, from, to, tree),
    ensures
        factor_at(source, tokens, from) == Some((tree, to)),
    decreases to - from, 0int,
{
    if !(to == from + 1 && tokens[from].kind == TokenKind::Number) {
        lemma_expression_complete(source, tokens, from + 1, to - 1, tree);
    }
}

/// Descent finds every term of the grammar, and goes on from its end with
/// its tree.
pub proof fn lemma_term_complete(
    source: Seq<u8>,
    tokens: Seq<Token>,
    from: int,
    to: int,
    tree: ExpressionView,
)
    requires
        is_term(source, tokens, from, to, tree),
    ensures
        0 <= from < to <= tokens.len(),
        term_at(source, tokens, from) == term_rest(source, tokens, to, tree),
    decreases to - from, 1int,
{
    if is_factor(source, tokens, from, to, tree) {
        lemma_factor_complete(source, tokens, from, to, tree);
    } else {
        let at = choose|at: int|
            0 <= from < at < to <= tokens.len() && multiplicative((#[trigger] tokens[at]).kind)
                == Some(tree->op) && is_term(source, tokens, from, at, *tree->left) && is_factor(
                source,
                tokens,
                at + 1,
                to,
                *tree->right,
            );
        lemma_term_complete(source, tokens, from, at, *tree->left);
        lemma_factor_complete(source, tokens, at + 1, to, *tree->right);
    }
}

/// Descent finds every expression of the grammar after which neither `*`
/// nor `/` stands, and goes on from its end with its tree.
pub proof fn lemma_expression_complete(
    source: Seq<u8>,
    tokens: Seq<Token>,
    from: int,
    to: int,
    tree: ExpressionView,
)
    requires
        is_expression(source, tokens, from, to, tree),
        term_ends(tokens, to),
    ensures
        0 <= from < to <= tokens.len(),
        expression_at(source, tokens, from) == expression_rest(source, tokens, to, tree),
    decreases to - from, 2int,
{
    if is_term(source, tokens, from, to, tree) {
        lemma_term_complete(source, tokens, from, to, tree);
    } else {
        let at = choose|at: int|
            0 <= from < at < to <= tokens.len() && additive((#[trigger] tokens[at]).kind) == Some(
                tree->op,
            ) && is_expression(source, tokens, from, at, *tree->left) && is_term(
                source,
                tokens,
                at + 1,
                to,
                *tree->right,
            );
        lemma_expression_complete(source, tokens, from, at, *tree->left);
        lemma_term_complete(source, tokens, at + 1, to, *tree->right);
    }
}

/// Descent finds every program of the grammar after which `puts` or nothing
/// stands, and goes on from its end with its statements.
pub proof fn lemma_program_complete(
    source: Seq<u8>,
    tokens: Seq<Token>,
    to: int,
    statements: Seq<StatementView>,
)
    requires
        is_program(source, tokens, to, statements),
        0 <= to < tokens.len() ==> tokens[to].kind == TokenKind::Puts,
    ensures
        0 <= to <= tokens.len(),
        program_rest(source, tokens, 0, Seq::empty()) == program_rest(
            source,
            tokens,
            to,
            statements,
        ),
    decreases statements.len(),
{
    if statements.len() == 0 {
        assert(statements =~= Seq::empty());
    } else {
        let tree = statements.last()->0;
        let at = choose|at: int|
            0 <= at < to <= tokens.len() && (#[trigger] tokens[at]).kind == TokenKind::Puts
                && is_program(source, tokens, at, statements.drop_last()) && is_expression(
                source,
                tokens,
                at + 1,
                to,
                tree,
            );
        lemma_program_complete(source, tokens, at, statements.drop_last());
        lemma_expression_complete(source, tokens, at + 1, to, tree);
        assert(statements.drop_last().push(StatementView::Puts(tree)) =~= statements);
    }
}

/// The recognizer read all the tokens and may stop where it is.
pub open spec fn accepts(tokens: Seq<Token>, outcome: (int, Stage, int)) -> bool {
    outcome.0 >= tokens.len() && accepting(outcome.1, outcome.2)
}

/// Where descent parses something from `at` on, the recognizer reads the
/// same tokens, and is then where an operator may follow, no deeper in
/// parentheses than before. Where descent parses nothing, the recognizer
/// does not accept the tokens.
pub proof fn lemma_descent_recognized(
    source: Seq<u8>,
    tokens: Seq<Token>,
    at: int,
    tier: int,
    depth: int,
)
    requires
        0 <= tier <= 2,
        0 <= depth,
    ensures
        tier == 0 ==> match factor_at(source, tokens, at) {
            Some((_, next)) => run(tokens, at, Stage::Operand, depth) == run(
                tokens,
                next,
                Stage::Operator,
                depth,
            ),
            None => !accepts(tokens, run(tokens, at, Stage::Operand, depth)),
        },
        tier == 1 ==> match term_at(source, tokens, at) {
            Some((_, next)) => run(tokens, at, Stage::Operand, depth) == run(
                tokens,
                next,
                Stage::Operator,
                depth,
            ),
            None => !accepts(tokens, run(tokens, at, Stage::Operand, depth)),
        },
        tier == 2 ==> match expression_at(source, tokens, at) {
            Some((_, next)) => run(tokens, at, Stage::Operand, depth) == run(
                tokens,
                next,
                Stage::Operator,
                depth,
            ),
            None => !accepts(tokens, run(tokens, at, Stage::Operand, depth)),
        },
    decreases tokens.len() - at, 2 * tier,
{
    if tier == 0 {
        if 0 <= at < tokens.len() && tokens[at].kind == TokenKind::LeftParen {
            lemma_descent_recognized(source, tokens, at + 1, 2, depth + 1);
            lemma_descent_ends(source, tokens, at + 1, 2);
            if let Some((_, close)) = expression_at(source, tokens, at + 1) {
                assert(run(tokens, at, Stage::Operand, depth) == run(
                    tokens,
                    close,
                    Stage::Operator,
                    depth + 1,
                ));
            }
        }
    } else if tier == 1 {
        lemma_descent_recognized(source, tokens, at, 0, depth);
        lemma_descent_ends(source, tokens, at, 0);
        if let Some((first, next)) = factor_at(source, tokens, at) {
            lemma_term_rest_recognized(source, tokens, next, first, depth);
        }
    } else {
        lemma_descent_recognized(source, tokens, at, 1, depth);
        lemma_descent_ends(source, tokens, at, 1);
        if let Some((first, next)) = term_at(source, tokens, at) {
            lemma_expression_rest_recognized(source, tokens, next, first, depth);
        }
    }
}

/// The same, of a term that descent continues from `at`.
pub proof fn lemma_term_rest_recognized(
    source: Seq<u8>,
    tokens: Seq<Token>,
    at: int,
    left: ExpressionView,
    depth: int,
)
    requires
        0 <= at <= tokens.len(),
        0 <= depth,
    ensures
        match term_rest(source, tokens, at, left) {
            Some((_, next)) => run(tokens, at, Stage::Operator, depth) == run(
                tokens,
                next,
                Stage::Operator,
                depth,
            ),
            None => !accepts(tokens, run(tokens, at, Stage::Operator, depth)),
        },
    decreases tokens.len() - at, 1int,
{
    if at < tokens.len() && multiplicative(tokens[at].kind) is Some {
        lemma_descent_recognized(source, tokens, at + 1, 0, depth);
        lemma_descent_ends(source, tokens, at + 1, 0);
        assert(run(tokens, at, Stage::Operator, depth) == run(
            tokens,
            at + 1,
            Stage::Operand,
            depth,
        ));
        if let Some((right, next)) = factor_at(source, tokens, at + 1) {
            lemma_term_rest_recognized(
                source,
                tokens,
                next,
                ExpressionView::BinaryOp {
                    left: Box::new(left),
                    op: multiplicative(tokens[at].kind)->0,
                    right: Box::new(right),
                },
                depth,
            );
        }
    }
}

/// The same, of an expression that descent continues from `at`.
pub proof fn lemma_expression_rest_recognized(
    source: Seq<u8>,
    tokens: Seq<Token>,
    at: int,
    left: ExpressionView,
    depth: int,
)
    requires
        0 <= at <= tokens.len(),
        0 <= depth,
    ensures
        match expression_rest(source, tokens, at, left) {
            Some((_, next)) => run(tokens, at, Stage::Operator, depth) == run(
                tokens,
                next,
                Stage::Operator,
                depth,
            ),
            None => !accepts(tokens, run(tokens, at, Stage::Operator, depth)),
        },
    decreases tokens.len() - at, 3int,
{
    if at < tokens.len() && additive(tokens[at].kind) is Some {
        lemma_descent_recognized(source, tokens, at + 1, 1, depth);
        lemma_descent_ends(source, tokens, at + 1, 1);
        assert(run(tokens, at, Stage::Operator, depth) == run(
            tokens,
            at + 1,
            Stage::Operand,
            depth,
        ));
        if let Some((right, next)) = term_at(source, tokens, at + 1) {
            lemma_expression_rest_recognized(
                source,
                tokens,
                next,
                ExpressionView::BinaryOp {
                    left: Box::new(left),
                    op: additive(tokens[at].kind)->0,
                    right: Box::new(right),
                },
                depth,
            );
        }
    }
}

/// Descent parses a program from `at` on, where a statement may begin, if
/// and only if the recognizer accepts the tokens from there.
pub proof fn lemma_program_rest_recognized(
    source: Seq<u8>,
    tokens: Seq<Token>,
    at: int,
    done: Seq<StatementView>,
    stage: Stage,
)
    requires
        0 <= at <= tokens.len(),
        stage == Stage::Start || (stage == Stage::Operator && expression_ends(tokens, at)),
    ensures
        program_rest(source, tokens, at, done) is Some <==> accepts(
            tokens,
            run(tokens, at, stage, 0),
        ),
    decreases tokens.len() - at,
{
    if at < tokens.len() && tokens[at].kind == TokenKind::Puts {
        lemma_descent_recognized(source, tokens, at + 1, 2, 0);
        lemma_descent_ends(source, tokens, at + 1, 2);
        assert(run(tokens, at, stage, 0) == run(tokens, at + 1, Stage::Operand, 0));
        if let Some((tree, next)) = expression_at(source, tokens, at + 1) {
            lemma_program_rest_recognized(
                source,
                tokens,
                next,
                done.push(StatementView::Puts(tree)),
                Stage::Operator,
            );
        }
    }
}

/// The program that descent parses from the tokens of `source`.
pub open spec fn program_at(source: Seq<u8>) -> Option<Seq<StatementView>> {
    program_rest(source, scan(source, 0), 0, Seq::empty())
}

/// Descent parses a program from the tokens of a text with which nothing is
/// wrong, and a text is a program exactly if nothing is wrong with it and
/// descent parses that program.
pub proof fn lemma_descent_parses(source: Seq<u8>)
    requires
        source.len() <= usize::MAX,
    ensures
        diagnosis(source) is None ==> program_at(source) is Some,
        forall|statements: Seq<StatementView>| #[trigger]
            parses_to(source, statements) <==> diagnosis(source) is None && program_at(source)
                == Some(statements),
{
    let tokens = scan(source, 0);
    lemma_scan_stop(source, 0);
    lemma_run_stops(tokens, 0, Stage::Start, 0);
    lemma_program_rest_recognized(source, tokens, 0, Seq::empty(), Stage::Start);
    lemma_program_rest_sound(source, tokens, 0, Seq::empty());
    assert(diagnosis(source) is None <==> scan_stop(source, 0) == source.len() && accepts(
        tokens,
        run(tokens, 0, Stage::Start, 0),
    ));
    assert forall|statements: Seq<StatementView>| #[trigger]
        parses_to(source, statements) implies diagnosis(source) is None && program_at(source)
        == Some(statements) by {
        lemma_program_complete(source, tokens, tokens.len() as int, statements);
    }
}

} // verus!
