//! White space between tokens: the proof that one more byte of it changes
//! no token but in where it stands.

use crate::decimal::{digits_end, is_digit, lemma_digits_end, POINT};
use crate::parser::grammar::spelling;
use crate::parser::lexer::{
    is_space, keyword_at, lemma_lexeme, lemma_skip_spaces, lexeme, numeral_end, punctuation,
    scan, scan_stop, skip_spaces, Token,
};
use crate::parser::theorems::same_tokens;
use vstd::prelude::*;

verus! {

/// `longer` is `text` with the byte `byte` put in at `at`.
pub open spec fn inserted(text: Seq<u8>, longer: Seq<u8>, at: int, byte: u8) -> bool {
    &&& 0 <= at <= text.len()
    &&& longer.len() == text.len() + 1
    &&& forall|i: int| 0 <= i < at ==> longer[i] == #[trigger] text[i]
    &&& longer[at] == byte
    &&& forall|i: int| at <= i < text.len() ==> longer[i + 1] == #[trigger] text[i]
}

/// `token`, one byte further on.
pub open spec fn moved(token: Token) -> Token {
    Token { kind: token.kind, start: (token.start + 1) as usize, end: (token.end + 1) as usize }
}

/// After the byte that was put in, a run of digits is as it was.
proof fn lemma_digits_after(text: Seq<u8>, longer: Seq<u8>, at: int, byte: u8, from: int)
    requires
        inserted(text, longer, at, byte),
        at <= from <= text.len(),
    ensures
        digits_end(longer, from + 1) == digits_end(text, from) + 1,
    decreases text.len() - from,
{
    if from < text.len() {
        assert(longer[from + 1] == text[from]);
        if is_digit(text[from]) {
            lemma_digits_after(text, longer, at, byte, from + 1);
        }
    }
}

/// After the byte that was put in, white space is as it was.
proof fn lemma_spaces_after(text: Seq<u8>, longer: Seq<u8>, at: int, byte: u8, from: int)
    requires
        inserted(text, longer, at, byte),
        at <= from <= text.len(),
    ensures
        skip_spaces(longer, from + 1) == skip_spaces(text, from) + 1,
    decreases text.len() - from,
{
    if from < text.len() {
        assert(longer[from + 1] == text[from]);
        if is_space(text[from]) {
            lemma_spaces_after(text, longer, at, byte, from + 1);
        }
    }
}

/// After the byte that was put in, a token is as it was, one byte further
/// on.
proof fn lemma_lexeme_after(text: Seq<u8>, longer: Seq<u8>, at: int, byte: u8, from: int)
    requires
        inserted(text, longer, at, byte),
        at <= from <= text.len(),
        longer.len() <= usize::MAX,
    ensures
        lexeme(longer, from + 1) == match lexeme(text, from) {
            Some(token) => Some(moved(token)),
            None => None,
        },
{
    if from < text.len() {
        assert(longer[from + 1] == text[from]);
        lemma_lexeme(text, from);
        if punctuation(text[from]) is Some {
        } else if is_digit(text[from]) {
            let whole = digits_end(text, from);
            lemma_digits_end(text, from);
            lemma_digits_after(text, longer, at, byte, from);
            if whole < text.len() {
                assert(longer[whole + 1] == text[whole]);
            }
            if whole + 1 < text.len() {
                assert(longer[whole + 2] == text[whole + 1]);
                lemma_digits_after(text, longer, at, byte, whole + 1);
                lemma_digits_end(text, whole + 1);
            }
            assert(numeral_end(longer, from + 1) == numeral_end(text, from) + 1);
        } else {
            if from + 4 <= text.len() {
                assert(longer[from + 2] == text[from + 1]);
                assert(longer[from + 3] == text[from + 2]);
                assert(longer[from + 4] == text[from + 3]);
            }
            assert(keyword_at(longer, from + 1) == keyword_at(text, from));
        }
    }
}

/// After the byte that was put in, the tokens are as they were, one byte
/// further on.
proof fn lemma_scan_after(text: Seq<u8>, longer: Seq<u8>, at: int, byte: u8, from: int)
    requires
        inserted(text, longer, at, byte),
        at <= from <= text.len(),
        longer.len() <= usize::MAX,
    ensures
        same_tokens(text, scan(text, from), longer, scan(longer, from + 1)),
        scan_stop(longer, from + 1) == scan_stop(text, from) + 1,
    decreases text.len() - from,
{
    let first = skip_spaces(text, from);
    lemma_skip_spaces(text, from);
    lemma_spaces_after(text, longer, at, byte, from);
    lemma_lexeme_after(text, longer, at, byte, first);
    lemma_lexeme(text, first);
    if let Some(token) = lexeme(text, first) {
        lemma_scan_after(text, longer, at, byte, token.end as int);
        let rest = scan(text, token.end as int);
        let rest_longer = scan(longer, token.end + 1);
        assert(scan(text, from) == seq![token] + rest);
        assert(scan(longer, from + 1) == seq![moved(token)] + rest_longer);
        assert(spelling(text, token) =~= spelling(longer, moved(token))) by {
            assert forall|i: int| 0 <= i < token.end - token.start implies spelling(text, token)[i]
                == spelling(longer, moved(token))[i] by {
                assert(longer[token.start + i + 1] == text[token.start + i]);
            }
        }
        assert forall|i: int| 0 <= i < scan(text, from).len() implies (#[trigger] scan(
            text,
            from,
        )[i]).kind == scan(longer, from + 1)[i].kind && spelling(text, scan(text, from)[i])
            == spelling(longer, scan(longer, from + 1)[i]) by {
            if i > 0 {
                assert(scan(text, from)[i] == rest[i - 1]);
                assert(scan(longer, from + 1)[i] == rest_longer[i - 1]);
            }
        }
    }
}

/// Before the byte that was put in, a run of digits that ends before it is
/// as it was.
proof fn lemma_digits_before(text: Seq<u8>, longer: Seq<u8>, at: int, byte: u8, from: int)
    requires
        inserted(text, longer, at, byte),
        !is_digit(byte),
        0 <= from <= at,
        digits_end(text, from) <= at,
    ensures
        digits_end(longer, from) == digits_end(text, from),
    decreases at - from,
{
    lemma_digits_end(text, from);
    if from < at {
        assert(longer[from] == text[from]);
        if is_digit(text[from]) {
            lemma_digits_end(text, from + 1);
            lemma_digits_before(text, longer, at, byte, from + 1);
        }
    } else {
        assert(!is_digit(longer[from]));
    }
}

/// Before the byte that was put in, white space ends where it did, or, if it
/// went on to that byte, one byte later.
proof fn lemma_spaces_before(text: Seq<u8>, longer: Seq<u8>, at: int, byte: u8, from: int)
    requires
        inserted(text, longer, at, byte),
        is_space(byte),
        0 <= from <= at,
    ensures
        skip_spaces(longer, from) == if skip_spaces(text, from) < at {
            skip_spaces(text, from)
        } else {
            skip_spaces(text, from) + 1
        },
    decreases at - from,
{
    lemma_skip_spaces(text, from);
    if from < at {
        assert(longer[from] == text[from]);
        if is_space(text[from]) {
            lemma_spaces_before(text, longer, at, byte, from + 1);
        }
    } else {
        lemma_spaces_after(text, longer, at, byte, from);
    }
}

/// Before the byte that was put in, a token that ends before it is as it
/// was, and where no token began, none begins.
proof fn lemma_lexeme_before(text: Seq<u8>, longer: Seq<u8>, at: int, byte: u8, from: int)
    requires
        inserted(text, longer, at, byte),
        is_space(byte),
        0 <= from < at,
        longer.len() <= usize::MAX,
        lexeme(text, from) matches Some(token) ==> token.end <= at,
    ensures
        lexeme(longer, from) == lexeme(text, from),
{
    assert(longer[from] == text[from]);
    lemma_lexeme(text, from);
    if punctuation(text[from]) is Some {
    } else if is_digit(text[from]) {
        let whole = digits_end(text, from);
        lemma_digits_end(text, from);
        if whole < text.len() {
            lemma_digits_end(text, whole + 1);
        }
        lemma_digits_before(text, longer, at, byte, from);
        if whole < at {
            assert(longer[whole] == text[whole]);
            if whole + 1 < at {
                assert(longer[whole + 1] == text[whole + 1]);
                if text[whole] == POINT && is_digit(text[whole + 1]) {
                    lemma_digits_before(text, longer, at, byte, whole + 1);
                }
            }
        }
        assert(numeral_end(longer, from) == numeral_end(text, from));
    } else {
        if from + 1 < at {
            assert(longer[from + 1] == text[from + 1]);
        }
        if from + 2 < at {
            assert(longer[from + 2] == text[from + 2]);
        }
        if from + 3 < at {
            assert(longer[from + 3] == text[from + 3]);
        }
        assert(keyword_at(longer, from) == keyword_at(text, from));
    }
}

/// No token that `scan` finds in `text` from `from` on has the position `at`
/// inside it.
pub open spec fn parts_no_token(text: Seq<u8>, from: int, at: int) -> bool {
    forall|i: int|
        0 <= i < scan(text, from).len() ==> !((#[trigger] scan(text, from)[i]).start < at < scan(
            text,
            from,
        )[i].end)
}

/// White space that is put in where no token is parted changes no token but
/// in where it stands, and leaves all of the text to fall into tokens if
/// all of it did.
pub proof fn lemma_scan_before(text: Seq<u8>, longer: Seq<u8>, at: int, byte: u8, from: int)
    requires
        inserted(text, longer, at, byte),
        is_space(byte),
        0 <= from <= at,
        longer.len() <= usize::MAX,
        parts_no_token(text, from, at),
    ensures
        same_tokens(text, scan(text, from), longer, scan(longer, from)),
        scan_stop(text, from) == text.len() <==> scan_stop(longer, from) == longer.len(),
    decreases text.len() - from,
{
    let first = skip_spaces(text, from);
    lemma_skip_spaces(text, from);
    lemma_spaces_before(text, longer, at, byte, from);
    lemma_lexeme(text, first);
    if first >= at {
        lemma_scan_after(text, longer, at, byte, first);
        lemma_skip_spaces(longer, first + 1);
        lemma_spaces_after(text, longer, at, byte, first);
        assert(scan(text, from) == scan(text, first));
        assert(scan(longer, from) == scan(longer, first + 1));
        assert(scan_stop(text, from) == scan_stop(text, first));
        assert(scan_stop(longer, from) == scan_stop(longer, first + 1));
    } else {
        if let Some(token) = lexeme(text, first) {
            assert(scan(text, from)[0] == token);
            assert(token.end <= at);
            lemma_lexeme_before(text, longer, at, byte, first);
            let rest = scan(text, token.end as int);
            let rest_longer = scan(longer, token.end as int);
            assert(scan(text, from) == seq![token] + rest);
            assert(scan(longer, from) == seq![token] + rest_longer);
            assert forall|i: int| 0 <= i < rest.len() implies !((#[trigger] rest[i]).start < at
                < rest[i].end) by {
                assert(scan(text, from)[i + 1] == rest[i]);
            }
            lemma_scan_before(text, longer, at, byte, token.end as int);
            assert(spelling(text, token) =~= spelling(longer, token)) by {
                assert forall|i: int| 0 <= i < token.end - token.start implies spelling(
                    text,
                    token,
                )[i] == spelling(longer, token)[i] by {
                    assert(longer[token.start + i] == text[token.start + i]);
                }
            }
            assert forall|i: int| 0 <= i < scan(text, from).len() implies (#[trigger] scan(
                text,
                from,
            )[i]).kind == scan(longer, from)[i].kind && spelling(text, scan(text, from)[i])
                == spelling(longer, scan(longer, from)[i]) by {
                if i > 0 {
                    assert(scan(text, from)[i] == rest[i - 1]);
                    assert(scan(longer, from)[i] == rest_longer[i - 1]);
                }
            }
        } else {
            lemma_lexeme_before(text, longer, at, byte, first);
        }
    }
}

} // verus!
