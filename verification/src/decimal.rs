//! Numerals: what text is one, and the type that holds one.

use vstd::prelude::*;
use vstd::slice::slice_to_vec;

verus! {

/// The byte `.`, which parts the whole digits of a numeral from its fraction.
pub const POINT: u8 = 0x2e;

/// `byte` is one of the ASCII digits `0` to `9`.
pub open spec fn is_digit(byte: u8) -> bool {
    0x30 <= byte <= 0x39
}

/// Every byte of `text[from..to]` is a digit.
pub open spec fn all_digits(text: Seq<u8>, from: int, to: int) -> bool {
    forall|i: int| from <= i < to ==> is_digit(#[trigger] text[i])
}

/// `text` is a numeral of the language: one or more digits, optionally
/// followed by a point and one or more digits. No sign, no exponent.
pub open spec fn is_decimal(text: Seq<u8>) -> bool {
    ||| text.len() > 0 && all_digits(text, 0, text.len() as int)
    ||| exists|dot: int|
        0 < dot < text.len() - 1 && #[trigger] text[dot] == POINT && all_digits(text, 0, dot)
            && all_digits(text, dot + 1, text.len() as int)
}

/// The end of the longest run of digits of `text` that starts at `from`.
pub open spec fn digits_end(text: Seq<u8>, from: int) -> int
    decreases text.len() - from,
{
    if 0 <= from < text.len() && is_digit(text[from]) {
        digits_end(text, from + 1)
    } else {
        from
    }
}

/// `digits_end` stops at the first byte that is no digit, and not before.
pub proof fn lemma_digits_end(text: Seq<u8>, from: int)
    requires
        0 <= from <= text.len(),
    ensures
        from <= digits_end(text, from) <= text.len(),
        all_digits(text, from, digits_end(text, from)),
        digits_end(text, from) < text.len() ==> !is_digit(text[digits_end(text, from)]),
    decreases text.len() - from,
{
    if from < text.len() && is_digit(text[from]) {
        lemma_digits_end(text, from + 1);
    }
}

/// A run of digits that ends at a byte that is no digit is the longest one.
pub proof fn lemma_digits_end_unique(text: Seq<u8>, from: int, to: int)
    requires
        0 <= from <= to <= text.len(),
        all_digits(text, from, to),
        to < text.len() ==> !is_digit(text[to]),
    ensures
        digits_end(text, from) == to,
    decreases to - from,
{
    if from < to {
        assert(is_digit(text[from]));
        lemma_digits_end_unique(text, from + 1, to);
    }
}

/// A numeral is a run of digits that fills the text, or ends at a point
/// after which a second run of digits fills the text.
pub proof fn lemma_is_decimal(text: Seq<u8>)
    ensures
        is_decimal(text) <==> ({
            let whole = digits_end(text, 0);
            0 < whole && (whole == text.len() || (whole + 1 < text.len() && text[whole] == POINT
                && digits_end(text, whole + 1) == text.len()))
        }),
{
    let len = text.len() as int;
    let whole = digits_end(text, 0);
    lemma_digits_end(text, 0);
    if whole < len {
        lemma_digits_end(text, whole + 1);
    }
    if is_decimal(text) {
        if len > 0 && all_digits(text, 0, len) {
            lemma_digits_end_unique(text, 0, len);
        } else {
            let dot = choose|dot: int|
                0 < dot < len - 1 && #[trigger] text[dot] == POINT && all_digits(text, 0, dot)
                    && all_digits(text, dot + 1, len);
            lemma_digits_end_unique(text, 0, dot);
            lemma_digits_end_unique(text, dot + 1, len);
        }
    }
    if 0 < whole < len && whole + 1 < len && text[whole] == POINT && digits_end(text, whole + 1)
        == len {
        assert(text[whole] == POINT);
    }
}

/// Counts the digits of `text` from `from` on, and returns where they end.
pub(crate) fn scan_digits(text: &[u8], from: usize) -> (to: usize)
    requires
        from <= text@.len(),
    ensures
        to == digits_end(text@, from as int),
        from <= to <= text@.len(),
{
    let mut to: usize = from;
    while to < text.len() && text[to] >= 0x30 && text[to] <= 0x39
        invariant
            from <= to <= text@.len(),
            digits_end(text@, from as int) == digits_end(text@, to as int),
        decreases text@.len() - to,
    {
        to = to + 1;
    }
    to
}

/// A numeral as it was written: the exact decimal number that a literal of
/// the language denotes, kept digit for digit.
#[derive(Debug, PartialEq, Eq)]
pub struct Decimal {
    text: Vec<u8>,
}

impl View for Decimal {
    type V = Seq<u8>;

    /// The ASCII text of the numeral.
    closed spec fn view(&self) -> Seq<u8> {
        self.text@
    }
}

impl Decimal {
    #[verifier::type_invariant]
    spec fn well_formed(&self) -> bool {
        is_decimal(self.text@)
    }

    /// Makes a numeral of `text`, if `text` is one.
    pub fn new(text: &[u8]) -> (decimal: Option<Decimal>)
        ensures
            decimal is Some <==> is_decimal(text@),
            decimal matches Some(d) ==> d@ == text@,
    {
        proof {
            lemma_is_decimal(text@);
        }
        let whole = scan_digits(text, 0);
        if whole == 0 {
            return None;
        }
        if whole < text.len() {
            if text[whole] != POINT || text.len() - whole < 2 {
                return None;
            }
            if scan_digits(text, whole + 1) != text.len() {
                return None;
            }
        }
        Some(Decimal { text: slice_to_vec(text) })
    }

    /// Makes a numeral of `text`, which is one.
    pub(crate) fn from_numeral(text: &[u8]) -> (decimal: Decimal)
        requires
            is_decimal(text@),
        ensures
            decimal@ == text@,
    {
        Decimal { text: slice_to_vec(text) }
    }

    /// The text of the numeral, which is a numeral of the language.
    pub fn as_bytes(&self) -> (text: &[u8])
        ensures
            text@ == self@,
            is_decimal(text@),
    {
        proof {
            use_type_invariant(self);
        }
        self.text.as_slice()
    }
}

impl Clone for Decimal {
    fn clone(&self) -> (copy: Self)
        ensures
            copy@ == self@,
    {
        proof {
            use_type_invariant(self);
        }
        Decimal { text: self.text.clone() }
    }
}

} // verus!
