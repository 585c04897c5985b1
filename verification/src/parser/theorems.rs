//! Theorems about the parser: what holds of every text.

use crate::ast::{ExpressionView, StatementView};
use crate::decimal::{all_digits, is_decimal, is_digit, lemma_digits_end_unique, POINT};
use crate::parser::descent::{
    accepts, lemma_descent_parses, lemma_program_complete, lemma_program_rest_recognized,
    lemma_program_rest_sound, program_at, program_rest,
};
use crate::parser::layout::{inserted, lemma_scan_before, parts_no_token};
use crate::parser::grammar::{
    additive, in_language, is_expression, is_factor, is_program, is_term, multiplicative,
    parses_to, spelling,
};
use crate::parser::lexer::{
    is_space, lemma_lexeme, lemma_skip_spaces, lexeme, numeral_end, scan, scan_stop,
    skip_spaces, Token, TokenKind,
};
use crate::parser::recognizer::{diagnosis, lemma_run_stops, run, step, Stage};
use vstd::prelude::*;

verus! {

/// A text is a program if and only if nothing is wrong with it.
pub proof fn lemma_diagnosis(source: Seq<u8>)
    requires
        source.len() <= usize::MAX,
    ensures
        diagnosis(source) is None <==> in_language(source),
{
    lemma_descent_parses(source);
    if diagnosis(source) is None {
        assert(parses_to(source, program_at(source)->0));
    }
}

/// A text is at most one program: the parse of a text is a function of the
/// text alone.
pub proof fn lemma_parse_unique(
    source: Seq<u8>,
    first: Seq<StatementView>,
    second: Seq<StatementView>,
)
    requires
        parses_to(source, first),
        parses_to(source, second),
    ensures
        first == second,
{
    lemma_descent_parses(source);
}

/// The number of `puts` among the first `to` tokens.
pub open spec fn count_puts(tokens: Seq<Token>, to: int) -> nat
    decreases to,
{
    if to <= 0 {
        0
    } else if tokens[to - 1].kind == TokenKind::Puts {
        count_puts(tokens, to - 1) + 1
    } else {
        count_puts(tokens, to - 1)
    }
}

/// No `puts` stands among the tokens `from..to`.
spec fn no_puts(tokens: Seq<Token>, from: int, to: int) -> bool {
    forall|i: int| from <= i < to ==> (#[trigger] tokens[i]).kind != TokenKind::Puts
}

/// No `puts` stands inside a factor, a term or an expression.
proof fn lemma_no_puts_inside(
    source: Seq<u8>,
    tokens: Seq<Token>,
    from: int,
    to: int,
    tree: ExpressionView,
    tier: int,
)
    requires
        0 <= tier <= 2,
        tier == 0 ==> is_factor(source, tokens, from, to, tree),
        tier == 1 ==> is_term(source, tokens, from, to, tree),
        tier == 2 ==> is_expression(source, tokens, from, to, tree),
    ensures
        no_puts(tokens, from, to),
    decreases to - from, tier,
{
    if tier == 0 {
        if !(to == from + 1 && tokens[from].kind == TokenKind::Number) {
            lemma_no_puts_inside(source, tokens, from + 1, to - 1, tree, 2);
        }
    } else if tier == 1 {
        if is_factor(source, tokens, from, to, tree) {
            lemma_no_puts_inside(source, tokens, from, to, tree, 0);
        } else {
            let at = choose|at: int|
                0 <= from < at < to <= tokens.len() && multiplicative(
                    (#[trigger] tokens[at]).kind,
                ) == Some(tree->op) && is_term(source, tokens, from, at, *tree->left)
                    && is_factor(source, tokens, at + 1, to, *tree->right);
            lemma_no_puts_inside(source, tokens, from, at, *tree->left, 1);
            lemma_no_puts_inside(source, tokens, at + 1, to, *tree->right, 0);
        }
    } else {
        if is_term(source, tokens, from, to, tree) {
            lemma_no_puts_inside(source, tokens, from, to, tree, 1);
        } else {
            let at = choose|at: int|
                0 <= from < at < to <= tokens.len() && additive(
                    (#[trigger] tokens[at]).kind,
                ) == Some(tree->op) && is_expression(source, tokens, from, at, *tree->left)
                    && is_term(source, tokens, at + 1, to, *tree->right);
            lemma_no_puts_inside(source, tokens, from, at, *tree->left, 2);
            lemma_no_puts_inside(source, tokens, at + 1, to, *tree->right, 1);
        }
    }
}

/// Tokens among which no `puts` stands do not change the count.
proof fn lemma_count_puts_skips(tokens: Seq<Token>, from: int, to: int)
    requires
        0 <= from <= to,
        no_puts(tokens, from, to),
    ensures
        count_puts(tokens, to) == count_puts(tokens, from),
    decreases to - from,
{
    if from < to {
        assert(tokens[to - 1].kind != TokenKind::Puts);
        lemma_count_puts_skips(tokens, from, to - 1);
    }
}

/// A program has as many statements as it has `puts`.
proof fn lemma_program_counts_puts(
    source: Seq<u8>,
    tokens: Seq<Token>,
    to: int,
    statements: Seq<StatementView>,
)
    requires
        is_program(source, tokens, to, statements),
    ensures
        statements.len() == count_puts(tokens, to),
    decreases statements.len(),
{
    if statements.len() > 0 {
        let tree = statements.last()->0;
        let at = choose|at: int|
            0 <= at < to <= tokens.len() && (#[trigger] tokens[at]).kind == TokenKind::Puts
                && is_program(source, tokens, at, statements.drop_last()) && is_expression(
                source,
                tokens,
                at + 1,
                to,
                tree,
            );
        lemma_program_counts_puts(source, tokens, at, statements.drop_last());
        lemma_no_puts_inside(source, tokens, at + 1, to, tree, 2);
        lemma_count_puts_skips(tokens, at + 1, to);
    }
}

/// The program that a text is has one statement for each `puts` of the
/// text.
pub proof fn lemma_one_statement_for_each_puts(source: Seq<u8>, statements: Seq<StatementView>)
    requires
        parses_to(source, statements),
    ensures
        statements.len() == count_puts(scan(source, 0), scan(source, 0).len() as int),
{
    lemma_program_counts_puts(source, scan(source, 0), scan(source, 0).len() as int, statements);
}

/// The first `count` tokens begin a program: tokens can follow them so that
/// all of them together are a program.
pub open spec fn begins_program(source: Seq<u8>, tokens: Seq<Token>, count: int) -> bool {
    exists|rest: Seq<Token>, statements: Seq<StatementView>| #[trigger]
        is_program(source, tokens.take(count) + rest, count + rest.len(), statements)
}

/// `depth` times `)`.
spec fn closing(depth: int) -> Seq<Token> {
    Seq::new(depth as nat, |i: int| Token { kind: TokenKind::RightParen, start: 0, end: 0 })
}

/// Tokens that end a program when they follow tokens after which the
/// recognizer is at `stage` with `depth` open parentheses.
spec fn completion(stage: Stage, depth: int) -> Seq<Token> {
    match stage {
        Stage::Start => Seq::empty(),
        Stage::Operand => seq![Token { kind: TokenKind::Number, start: 0, end: 0 }] + closing(
            depth,
        ),
        Stage::Operator => closing(depth),
    }
}

/// Where `run` stops before the end of the tokens, the token there may not
/// follow; and the recognizer never counts fewer than no open parentheses.
proof fn lemma_run_stuck(tokens: Seq<Token>, from: int, stage: Stage, depth: int)
    requires
        0 <= from <= tokens.len(),
        0 <= depth,
    ensures
        ({
            let (at, last, open) = run(tokens, from, stage, depth);
            &&& 0 <= open
            &&& at < tokens.len() ==> step(last, open, tokens[at].kind) is None
        }),
    decreases tokens.len() - from,
{
    if from < tokens.len() {
        if let Some((next, deeper)) = step(stage, depth, tokens[from].kind) {
            lemma_run_stuck(tokens, from + 1, next, deeper);
        }
    }
}

/// The recognizer reads the same from tokens of the same kinds: on `other`,
/// it comes to where it stops on `tokens` in the same way.
proof fn lemma_run_same(
    tokens: Seq<Token>,
    other: Seq<Token>,
    from: int,
    stage: Stage,
    depth: int,
)
    requires
        0 <= from <= tokens.len(),
        run(tokens, from, stage, depth).0 <= other.len(),
        forall|i: int|
            from <= i < run(tokens, from, stage, depth).0 ==> (#[trigger] tokens[i]).kind
                == other[i].kind,
    ensures
        ({
            let (at, last, open) = run(tokens, from, stage, depth);
            run(other, from, stage, depth) == run(other, at, last, open)
        }),
    decreases tokens.len() - from,
{
    if from < tokens.len() {
        if let Some((next, deeper)) = step(stage, depth, tokens[from].kind) {
            lemma_run_stops(tokens, from + 1, next, deeper);
            assert(tokens[from].kind == other[from].kind);
            lemma_run_same(tokens, other, from + 1, next, deeper);
        }
    }
}

/// The recognizer accepts tokens that end in as many `)` as are open.
proof fn lemma_closing_accepted(tokens: Seq<Token>, from: int, depth: int)
    requires
        0 <= depth,
        0 <= from,
        from + depth == tokens.len(),
        forall|i: int| from <= i < tokens.len() ==> (#[trigger] tokens[i]).kind
            == TokenKind::RightParen,
    ensures
        accepts(tokens, run(tokens, from, Stage::Operator, depth)),
    decreases depth,
{
    if depth > 0 {
        assert(tokens[from].kind == TokenKind::RightParen);
        lemma_closing_accepted(tokens, from + 1, depth - 1);
    }
}

/// The recognizer stops where the tokens stop being the beginning of a
/// program: the tokens before that place begin a program, and with the
/// token at that place they begin none. So the token that `diagnosis`
/// reports is the first one that is wrong.
pub proof fn lemma_error_is_first(source: Seq<u8>, tokens: Seq<Token>)
    ensures
        begins_program(source, tokens, run(tokens, 0, Stage::Start, 0).0),
        run(tokens, 0, Stage::Start, 0).0 < tokens.len() ==> !begins_program(
            source,
            tokens,
            run(tokens, 0, Stage::Start, 0).0 + 1,
        ),
{
    let (at, stage, depth) = run(tokens, 0, Stage::Start, 0);
    lemma_run_stops(tokens, 0, Stage::Start, 0);
    lemma_run_stuck(tokens, 0, Stage::Start, 0);
    assert(begins_program(source, tokens, at)) by {
        let rest = completion(stage, depth);
        let all = tokens.take(at) + rest;
        lemma_run_same(tokens, all, 0, Stage::Start, 0);
        match stage {
            Stage::Start => {},
            Stage::Operand => {
                assert(all[at].kind == TokenKind::Number);
                lemma_closing_accepted(all, at + 1, depth);
            },
            Stage::Operator => {
                lemma_closing_accepted(all, at, depth);
            },
        }
        lemma_program_rest_recognized(source, all, 0, Seq::empty(), Stage::Start);
        lemma_program_rest_sound(source, all, 0, Seq::empty());
        let statements = program_rest(source, all, 0, Seq::empty())->0;
        assert(is_program(source, tokens.take(at) + rest, at + rest.len(), statements));
    }
    if at < tokens.len() {
        assert forall|rest: Seq<Token>, statements: Seq<StatementView>|
            !#[trigger] is_program(
                source,
                tokens.take(at + 1) + rest,
                at + 1 + rest.len(),
                statements,
            ) by {
            let all = tokens.take(at + 1) + rest;
            if is_program(source, all, at + 1 + rest.len(), statements) {
                lemma_program_complete(source, all, all.len() as int, statements);
                lemma_program_rest_recognized(source, all, 0, Seq::empty(), Stage::Start);
                lemma_run_same(tokens, all, 0, Stage::Start, 0);
                assert(all[at].kind == tokens[at].kind);
            }
        }
    }
}

/// A numeral that stands at the end of a text is one token.
proof fn lemma_numeral_is_token(source: Seq<u8>, at: int, text: Seq<u8>)
    requires
        is_decimal(text),
        0 <= at,
        at + text.len() == source.len() <= usize::MAX,
        source.subrange(at, source.len() as int) == text,
    ensures
        lexeme(source, at) == Some(
            Token { kind: TokenKind::Number, start: at as usize, end: source.len() as usize },
        ),
{
    let end = source.len() as int;
    assert(forall|i: int| 0 <= i < text.len() ==> text[i] == source[at + i]);
    if text.len() > 0 && all_digits(text, 0, text.len() as int) {
        assert(is_digit(text[0]));
        assert forall|i: int| at <= i < end implies is_digit(#[trigger] source[i]) by {
            assert(is_digit(text[i - at]));
        }
        lemma_digits_end_unique(source, at, end);
    } else {
        let dot = choose|dot: int|
            0 < dot < text.len() - 1 && #[trigger] text[dot] == POINT && all_digits(text, 0, dot)
                && all_digits(text, dot + 1, text.len() as int);
        assert(is_digit(text[0]));
        assert forall|i: int| at <= i < at + dot implies is_digit(#[trigger] source[i]) by {
            assert(is_digit(text[i - at]));
        }
        assert forall|i: int| at + dot + 1 <= i < end implies is_digit(#[trigger] source[i]) by {
            assert(is_digit(text[i - at]));
        }
        assert(source[at + dot] == text[dot]);
        lemma_digits_end_unique(source, at, at + dot);
        lemma_digits_end_unique(source, at + dot + 1, end);
        assert(is_digit(source[at + dot + 1]));
        assert(numeral_end(source, at) == end);
    }
}

/// Every numeral is an expression: `puts`, a space and a numeral, be it a
/// whole number or one with a fraction, is the program that prints that
/// numeral.
pub proof fn lemma_puts_numeral_parses(text: Seq<u8>)
    requires
        is_decimal(text),
        text.len() + 5 <= usize::MAX,
    ensures
        parses_to(
            seq![0x70u8, 0x75u8, 0x74u8, 0x73u8, 0x20u8] + text,
            seq![StatementView::Puts(ExpressionView::Number(text))],
        ),
{
    let source = seq![0x70u8, 0x75u8, 0x74u8, 0x73u8, 0x20u8] + text;
    let end = source.len() as int;
    let puts = Token { kind: TokenKind::Puts, start: 0, end: 4 };
    let number = Token { kind: TokenKind::Number, start: 5, end: end as usize };
    let tokens = seq![puts, number];
    let tree = ExpressionView::Number(text);
    let statements = seq![StatementView::Puts(tree)];
    assert(source.subrange(5, end) =~= text);
    assert(is_digit(text[0]));
    assert(source[5] == text[0]);
    lemma_numeral_is_token(source, 5, text);
    assert(skip_spaces(source, 0) == 0);
    assert(lexeme(source, 0) == Some(puts));
    assert(skip_spaces(source, 4) == 5) by {
        assert(is_space(source[4]));
        assert(skip_spaces(source, 5) == 5);
    }
    assert(skip_spaces(source, end) == end);
    assert(lexeme(source, end) is None);
    assert(scan(source, end) =~= Seq::empty());
    assert(scan(source, 4) =~= seq![number]);
    assert(scan(source, 0) =~= tokens);
    assert(scan_stop(source, end) == end);
    assert(scan_stop(source, 4) == end);
    assert(scan_stop(source, 0) == end);
    assert(is_expression(source, tokens, 1, 2, tree)) by {
        assert(is_factor(source, tokens, 1, 2, tree));
        assert(is_term(source, tokens, 1, 2, tree));
    }
    assert(is_program(source, tokens, 2, statements)) by {
        assert(tokens[0].kind == TokenKind::Puts);
        assert(statements.drop_last() =~= Seq::empty());
        assert(is_program(source, tokens, 0, statements.drop_last()));
        assert(statements.last() == StatementView::Puts(tree));
    }
}

/// Nothing but white space stands before the first token that `scan` finds
/// and between one token and the next.
pub proof fn lemma_scan_gaps(text: Seq<u8>, from: int, index: int)
    requires
        0 <= from,
        text.len() <= usize::MAX,
        0 <= index < scan(text, from).len(),
    ensures
        ({
            let tokens = scan(text, from);
            let gap = if index == 0 {
                from
            } else {
                tokens[index - 1].end as int
            };
            &&& gap <= tokens[index].start
            &&& forall|i: int| gap <= i < tokens[index].start ==> is_space(#[trigger] text[i])
        }),
    decreases text.len() - from,
{
    let at = skip_spaces(text, from);
    lemma_skip_spaces(text, from);
    lemma_lexeme(text, at);
    let token = lexeme(text, at)->0;
    if index > 0 {
        lemma_scan_gaps(text, token.end as int, index - 1);
    }
}

/// Nothing but white space stands between the last token that `scan` finds
/// and the place where it stops, and where it stops before the end of the
/// text no token begins.
pub proof fn lemma_scan_end(text: Seq<u8>, from: int)
    requires
        0 <= from <= text.len() <= usize::MAX,
    ensures
        ({
            let tokens = scan(text, from);
            let gap = if tokens.len() == 0 {
                from
            } else {
                tokens.last().end as int
            };
            &&& gap <= scan_stop(text, from) <= text.len()
            &&& forall|i: int| gap <= i < scan_stop(text, from) ==> is_space(#[trigger] text[i])
            &&& lexeme(text, scan_stop(text, from)) is None
        }),
    decreases text.len() - from,
{
    let at = skip_spaces(text, from);
    lemma_skip_spaces(text, from);
    lemma_lexeme(text, at);
    if let Some(token) = lexeme(text, at) {
        lemma_scan_end(text, token.end as int);
        let rest = scan(text, token.end as int);
        assert(scan(text, from) == seq![token] + rest);
        if rest.len() > 0 {
            assert(scan(text, from).last() == rest.last());
        }
    }
}

/// `tokens` of `source` and `others` of `other` are the same tokens but for
/// where they stand: as many, of the same kinds, spelled alike.
pub open spec fn same_tokens(
    source: Seq<u8>,
    tokens: Seq<Token>,
    other: Seq<u8>,
    others: Seq<Token>,
) -> bool {
    &&& tokens.len() == others.len()
    &&& forall|i: int|
        0 <= i < tokens.len() ==> (#[trigger] tokens[i]).kind == others[i].kind && spelling(
            source,
            tokens[i],
        ) == spelling(other, others[i])
}

/// What the same tokens are in one text, they are in the other.
proof fn lemma_same_tokens_same_tree(
    source: Seq<u8>,
    tokens: Seq<Token>,
    other: Seq<u8>,
    others: Seq<Token>,
    from: int,
    to: int,
    tree: ExpressionView,
    tier: int,
)
    requires
        same_tokens(source, tokens, other, others),
        0 <= tier <= 2,
        tier == 0 ==> is_factor(source, tokens, from, to, tree),
        tier == 1 ==> is_term(source, tokens, from, to, tree),
        tier == 2 ==> is_expression(source, tokens, from, to, tree),
    ensures
        tier == 0 ==> is_factor(other, others, from, to, tree),
        tier == 1 ==> is_term(other, others, from, to, tree),
        tier == 2 ==> is_expression(other, others, from, to, tree),
    decreases to - from, tier,
{
    if tier == 0 {
        assert(tokens[from].kind == others[from].kind);
        assert(tokens[to - 1].kind == others[to - 1].kind);
        if !(to == from + 1 && tokens[from].kind == TokenKind::Number) {
            lemma_same_tokens_same_tree(source, tokens, other, others, from + 1, to - 1, tree, 2);
        }
    } else if tier == 1 {
        if is_factor(source, tokens, from, to, tree) {
            lemma_same_tokens_same_tree(source, tokens, other, others, from, to, tree, 0);
        } else {
            let at = choose|at: int|
                0 <= from < at < to <= tokens.len() && multiplicative((#[trigger] tokens[at]).kind)
                    == Some(tree->op) && is_term(source, tokens, from, at, *tree->left)
                    && is_factor(source, tokens, at + 1, to, *tree->right);
            lemma_same_tokens_same_tree(source, tokens, other, others, from, at, *tree->left, 1);
            lemma_same_tokens_same_tree(source, tokens, other, others, at + 1, to, *tree->right, 0);
            assert(others[at].kind == tokens[at].kind);
        }
    } else {
        if is_term(source, tokens, from, to, tree) {
            lemma_same_tokens_same_tree(source, tokens, other, others, from, to, tree, 1);
        } else {
            let at = choose|at: int|
                0 <= from < at < to <= tokens.len() && additive((#[trigger] tokens[at]).kind)
                    == Some(tree->op) && is_expression(source, tokens, from, at, *tree->left)
                    && is_term(source, tokens, at + 1, to, *tree->right);
            lemma_same_tokens_same_tree(source, tokens, other, others, from, at, *tree->left, 2);
            lemma_same_tokens_same_tree(source, tokens, other, others, at + 1, to, *tree->right, 1);
            assert(others[at].kind == tokens[at].kind);
        }
    }
}

/// The program that the same tokens are in one text, they are in the other.
proof fn lemma_same_tokens_same_program(
    source: Seq<u8>,
    tokens: Seq<Token>,
    other: Seq<u8>,
    others: Seq<Token>,
    to: int,
    statements: Seq<StatementView>,
)
    requires
        same_tokens(source, tokens, other, others),
        is_program(source, tokens, to, statements),
    ensures
        is_program(other, others, to, statements),
    decreases statements.len(),
{
    if statements.len() > 0 {
        let tree = statements.last()->0;
        let at = choose|at: int|
            0 <= at < to <= tokens.len() && (#[trigger] tokens[at]).kind == TokenKind::Puts
                && is_program(source, tokens, at, statements.drop_last()) && is_expression(
                source,
                tokens,
                at + 1,
                to,
                tree,
            );
        lemma_same_tokens_same_program(source, tokens, other, others, at, statements.drop_last());
        lemma_same_tokens_same_tree(source, tokens, other, others, at + 1, to, tree, 2);
        assert(others[at].kind == tokens[at].kind);
    }
}

/// Where a token stands is insignificant: two texts that fall into the same
/// tokens, whatever white space parts them, are the same program.
pub proof fn lemma_layout_is_insignificant(
    source: Seq<u8>,
    other: Seq<u8>,
    statements: Seq<StatementView>,
)
    requires
        parses_to(source, statements),
        other.len() <= usize::MAX,
        scan_stop(other, 0) == other.len(),
        same_tokens(source, scan(source, 0), other, scan(other, 0)),
    ensures
        parses_to(other, statements),
{
    lemma_same_tokens_same_program(
        source,
        scan(source, 0),
        other,
        scan(other, 0),
        scan(source, 0).len() as int,
        statements,
    );
}

/// `text` with the byte `byte` put in at `at`.
pub open spec fn with_byte(text: Seq<u8>, at: int, byte: u8) -> Seq<u8> {
    text.subrange(0, at).push(byte) + text.subrange(at, text.len() as int)
}

/// The position `at` of `text` lies inside no token: it is where a token
/// begins or ends, or in white space, or after the place where the text
/// stops falling into tokens.
pub open spec fn between_tokens(text: Seq<u8>, at: int) -> bool {
    0 <= at <= text.len() && parts_no_token(text, 0, at)
}

/// White space between tokens is insignificant: a byte of white space that
/// is put into a text where it parts no token leaves the text the program
/// that it was, or no program if it was none.
pub proof fn lemma_white_space_is_insignificant(
    source: Seq<u8>,
    at: int,
    space: u8,
    statements: Seq<StatementView>,
)
    requires
        is_space(space),
        between_tokens(source, at),
        source.len() < usize::MAX,
    ensures
        parses_to(with_byte(source, at, space), statements) <==> parses_to(source, statements),
{
    let longer = with_byte(source, at, space);
    assert(inserted(source, longer, at, space));
    lemma_scan_before(source, longer, at, space, 0);
    let tokens = scan(source, 0);
    let others = scan(longer, 0);
    if parses_to(source, statements) {
        lemma_same_tokens_same_program(
            source,
            tokens,
            longer,
            others,
            tokens.len() as int,
            statements,
        );
    }
    if parses_to(longer, statements) {
        assert forall|i: int| 0 <= i < others.len() implies (#[trigger] others[i]).kind
            == tokens[i].kind && spelling(longer, others[i]) == spelling(source, tokens[i]) by {
            assert(tokens[i].kind == others[i].kind);
        }
        lemma_same_tokens_same_program(
            longer,
            others,
            source,
            tokens,
            others.len() as int,
            statements,
        );
    }
}

} // verus!
