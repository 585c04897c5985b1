//! The tokens of the language, and how source text falls into them.

use crate::decimal::{digits_end, is_decimal, is_digit, lemma_digits_end, scan_digits, POINT};
use vstd::prelude::*;

verus! {

/// What a token is.
#[derive(Debug, Clone, Copy, PartialEq, Eq, Structural)]
pub enum TokenKind {
    /// The keyword `puts`.
    Puts,
    /// A numeral.
    Number,
    /// `+`
    Plus,
    /// `-`
    Minus,
    /// `*`
    Star,
    /// `/`
    Slash,
    /// `(`
    LeftParen,
    /// `)`
    RightParen,
}

/// A token: its kind, and the bytes `start..end` of the source that spell it.
#[derive(Debug, Clone, Copy, PartialEq, Eq, Structural)]
pub struct Token {
    pub kind: TokenKind,
    pub start: usize,
    pub end: usize,
}

/// `byte` is a space, a tab, a line feed or a carriage return.
pub open spec fn is_space(byte: u8) -> bool {
    byte == 0x20 || byte == 0x09 || byte == 0x0a || byte == 0x0d
}

/// The first position from `from` on that holds no white space.
pub open spec fn skip_spaces(text: Seq<u8>, from: int) -> int
    decreases text.len() - from,
{
    if 0 <= from < text.len() && is_space(text[from]) {
        skip_spaces(text, from + 1)
    } else {
        from
    }
}

/// The token that the single byte `byte` spells, if it spells one.
pub open spec fn punctuation(byte: u8) -> Option<TokenKind> {
    if byte == 0x2b {
        Some(TokenKind::Plus)
    } else if byte == 0x2d {
        Some(TokenKind::Minus)
    } else if byte == 0x2a {
        Some(TokenKind::Star)
    } else if byte == 0x2f {
        Some(TokenKind::Slash)
    } else if byte == 0x28 {
        Some(TokenKind::LeftParen)
    } else if byte == 0x29 {
        Some(TokenKind::RightParen)
    } else {
        None
    }
}

/// The bytes of `text` from `at` on begin with `puts`.
pub open spec fn keyword_at(text: Seq<u8>, at: int) -> bool {
    0 <= at && at + 4 <= text.len() && text[at] == 0x70 && text[at + 1] == 0x75 && text[at + 2]
        == 0x74 && text[at + 3] == 0x73
}

/// Where the numeral that begins at `at` ends: after its whole digits, or,
/// if a point and a digit follow them, after the digits of the fraction.
pub open spec fn numeral_end(text: Seq<u8>, at: int) -> int {
    let whole = digits_end(text, at);
    if whole + 1 < text.len() && text[whole] == POINT && is_digit(text[whole + 1]) {
        digits_end(text, whole + 1)
    } else {
        whole
    }
}

/// The token of `text` that begins at `at`, if one does. A token is as long
/// as it can be.
pub open spec fn lexeme(text: Seq<u8>, at: int) -> Option<Token> {
    if !(0 <= at < text.len()) {
        None
    } else if let Some(kind) = punctuation(text[at]) {
        Some(Token { kind, start: at as usize, end: (at + 1) as usize })
    } else if is_digit(text[at]) {
        Some(Token { kind: TokenKind::Number, start: at as usize, end: numeral_end(text, at) as usize })
    } else if keyword_at(text, at) {
        Some(Token { kind: TokenKind::Puts, start: at as usize, end: (at + 4) as usize })
    } else {
        None
    }
}

/// The tokens of `text` from `from` on, up to the end of the text or to the
/// first byte that neither is white space nor begins a token.
pub open spec fn scan(text: Seq<u8>, from: int) -> Seq<Token>
    decreases text.len() - from,
    when 0 <= from && text.len() <= usize::MAX
{
    let at = skip_spaces(text, from);
    match lexeme(text, at) {
        Some(token) => {
            proof {
                lemma_skip_spaces(text, from);
                lemma_lexeme(text, at);
            }
            seq![token] + scan(text, token.end as int)
        },
        None => Seq::empty(),
    }
}

/// Where `scan` stops: the length of `text` if all of it from `from` on falls
/// into tokens and white space, else the position of the first byte that
/// does not.
pub open spec fn scan_stop(text: Seq<u8>, from: int) -> int
    decreases text.len() - from,
    when 0 <= from && text.len() <= usize::MAX
{
    let at = skip_spaces(text, from);
    match lexeme(text, at) {
        Some(token) => {
            proof {
                lemma_skip_spaces(text, from);
                lemma_lexeme(text, at);
            }
            scan_stop(text, token.end as int)
        },
        None => at,
    }
}

/// `skip_spaces` passes white space only, and stops at the first byte that
/// is none.
pub proof fn lemma_skip_spaces(text: Seq<u8>, from: int)
    requires
        0 <= from,
    ensures
        from <= skip_spaces(text, from),
        from <= text.len() ==> skip_spaces(text, from) <= text.len(),
        skip_spaces(text, from) < text.len() ==> !is_space(text[skip_spaces(text, from)]),
        skip_spaces(text, skip_spaces(text, from)) == skip_spaces(text, from),
        forall|i: int| from <= i < skip_spaces(text, from) ==> is_space(#[trigger] text[i]),
    decreases text.len() - from,
{
    if from < text.len() && is_space(text[from]) {
        lemma_skip_spaces(text, from + 1);
    }
}

/// A token lies within the text, is not empty, and begins where it was
/// looked for; the text of a numeral is a numeral.
pub proof fn lemma_lexeme(text: Seq<u8>, at: int)
    requires
        text.len() <= usize::MAX,
    ensures
        lexeme(text, at) matches Some(token) ==> {
            &&& 0 <= at == token.start < token.end <= text.len()
            &&& !is_space(text[at])
            &&& token.kind == TokenKind::Number ==> is_decimal(
                text.subrange(token.start as int, token.end as int),
            )
        },
{
    if 0 <= at < text.len() && punctuation(text[at]) is None && is_digit(text[at]) {
        let whole = digits_end(text, at);
        let end = numeral_end(text, at);
        lemma_digits_end(text, at);
        let numeral = text.subrange(at, end);
        if end == whole {
            assert(numeral.len() > 0);
            assert forall|i: int| 0 <= i < numeral.len() implies is_digit(#[trigger] numeral[i]) by {
                assert(numeral[i] == text[at + i]);
            }
        } else {
            lemma_digits_end(text, whole + 1);
            let dot = whole - at;
            assert(numeral[dot] == POINT);
            assert forall|i: int| 0 <= i < dot implies is_digit(#[trigger] numeral[i]) by {
                assert(numeral[i] == text[at + i]);
            }
            assert forall|i: int| dot + 1 <= i < numeral.len() implies is_digit(
                #[trigger] numeral[i],
            ) by {
                assert(numeral[i] == text[at + i]);
            }
        }
    }
}

/// Each token that `scan` finds is the token that begins where it begins.
pub proof fn lemma_scan_lexemes(text: Seq<u8>, from: int, index: int)
    requires
        0 <= from,
        text.len() <= usize::MAX,
        0 <= index < scan(text, from).len(),
    ensures
        lexeme(text, scan(text, from)[index].start as int) == Some(scan(text, from)[index]),
        from <= scan(text, from)[index].start,
    decreases text.len() - from,
{
    let at = skip_spaces(text, from);
    lemma_skip_spaces(text, from);
    lemma_lexeme(text, at);
    let token = lexeme(text, at)->0;
    if index > 0 {
        lemma_scan_lexemes(text, token.end as int, index - 1);
    }
}

/// `scan` stops within the text.
pub proof fn lemma_scan_stop(text: Seq<u8>, from: int)
    requires
        0 <= from <= text.len() <= usize::MAX,
    ensures
        from <= scan_stop(text, from) <= text.len(),
    decreases text.len() - from,
{
    let at = skip_spaces(text, from);
    lemma_skip_spaces(text, from);
    lemma_lexeme(text, at);
    if let Some(token) = lexeme(text, at) {
        lemma_scan_stop(text, token.end as int);
    }
}

/// Passes the white space of `text` from `from` on.
fn skip(text: &[u8], from: usize) -> (at: usize)
    requires
        from <= text@.len(),
    ensures
        at == skip_spaces(text@, from as int),
        from <= at <= text@.len(),
{
    let mut at: usize = from;
    while at < text.len() && (text[at] == 0x20 || text[at] == 0x09 || text[at] == 0x0a || text[at]
        == 0x0d)
        invariant
            from <= at <= text@.len(),
            skip_spaces(text@, from as int) == skip_spaces(text@, at as int),
        decreases text@.len() - at,
    {
        at = at + 1;
    }
    at
}

/// Reads the token of `text` that begins at `at`.
fn next_token(text: &[u8], at: usize) -> (token: Option<Token>)
    ensures
        token == lexeme(text@, at as int),
{
    if at >= text.len() {
        return None;
    }
    proof {
        lemma_lexeme(text@, at as int);
    }
    let byte = text[at];
    if byte == 0x2b {
        Some(Token { kind: TokenKind::Plus, start: at, end: at + 1 })
    } else if byte == 0x2d {
        Some(Token { kind: TokenKind::Minus, start: at, end: at + 1 })
    } else if byte == 0x2a {
        Some(Token { kind: TokenKind::Star, start: at, end: at + 1 })
    } else if byte == 0x2f {
        Some(Token { kind: TokenKind::Slash, start: at, end: at + 1 })
    } else if byte == 0x28 {
        Some(Token { kind: TokenKind::LeftParen, start: at, end: at + 1 })
    } else if byte == 0x29 {
        Some(Token { kind: TokenKind::RightParen, start: at, end: at + 1 })
    } else if byte >= 0x30 && byte <= 0x39 {
        let whole = scan_digits(text, at);
        let end = if whole < text.len() && text.len() - whole > 1 && text[whole] == POINT && text[whole
            + 1] >= 0x30 && text[whole + 1] <= 0x39 {
            scan_digits(text, whole + 1)
        } else {
            whole
        };
        Some(Token { kind: TokenKind::Number, start: at, end })
    } else if text.len() - at >= 4 && byte == 0x70 && text[at + 1] == 0x75 && text[at + 2] == 0x74
        && text[at + 3] == 0x73 {
        Some(Token { kind: TokenKind::Puts, start: at, end: at + 4 })
    } else {
        None
    }
}

/// Splits `source` into its tokens. Returns them with the position at which
/// the splitting stopped: the length of `source`, or the position of the
/// first byte that neither is white space nor begins a token.
pub fn tokenize(source: &[u8]) -> (result: (Vec<Token>, usize))
    ensures
        result.0@ == scan(source@, 0),
        result.1 == scan_stop(source@, 0),
{
    let length: usize = source.len();
    let mut tokens: Vec<Token> = Vec::new();
    let mut from: usize = 0;
    loop
        invariant
            from <= length == source@.len(),
            scan(source@, 0) == tokens@ + scan(source@, from as int),
            scan_stop(source@, 0) == scan_stop(source@, from as int),
        decreases source@.len() - from,
    {
        let at = skip(source, from);
        proof {
            lemma_lexeme(source@, at as int);
        }
        match next_token(source, at) {
            Some(token) => {
                tokens.push(token);
                from = token.end;
            },
            None => {
                return (tokens, at);
            },
        }
    }
}

} // verus!
