//! What the parser reports of a text that is no program.

use crate::parser::lexer::TokenKind;
use vstd::prelude::*;
use vstd::string::StringExecFns;

verus! {

/// What could have stood at the place where a text stopped being a program.
#[derive(Debug, Clone, Copy, PartialEq, Eq, Structural)]
pub enum Expected {
    /// At the start of the text: `puts`.
    Statement,
    /// After `puts`, an operator or `(`: a numeral or `(`.
    Operand,
    /// After an expression outside parentheses: an operator or `puts`.
    OperatorOrStatement,
    /// After an expression inside parentheses: an operator or `)`.
    OperatorOrClosing,
}

/// What stands at that place instead.
#[derive(Debug, Clone, Copy, PartialEq, Eq, Structural)]
pub enum Found {
    /// A token that cannot stand there.
    Token(TokenKind),
    /// A byte that neither is white space nor begins a token.
    Unrecognized,
    /// The end of the text.
    EndOfInput,
}

/// Why and where a text is no program. `position` is the offset, in bytes,
/// of the first token or byte that cannot continue a program, or the length
/// of the text where the text ends too early.
#[derive(Debug, Clone, Copy, PartialEq, Eq, Structural)]
pub struct ParseError {
    pub position: usize,
    pub expected: Expected,
    pub found: Found,
}

impl TokenKind {
    /// How a token of this kind is named in a message.
    pub open spec fn name(self) -> Seq<char> {
        match self {
            TokenKind::Puts => "`puts`"@,
            TokenKind::Number => "a number"@,
            TokenKind::Plus => "`+`"@,
            TokenKind::Minus => "`-`"@,
            TokenKind::Star => "`*`"@,
            TokenKind::Slash => "`/`"@,
            TokenKind::LeftParen => "`(`"@,
            TokenKind::RightParen => "`)`"@,
        }
    }

    /// Names a token of this kind.
    pub fn describe(self) -> (text: &'static str)
        ensures
            text@ == self.name(),
    {
        match self {
            TokenKind::Puts => "`puts`",
            TokenKind::Number => "a number",
            TokenKind::Plus => "`+`",
            TokenKind::Minus => "`-`",
            TokenKind::Star => "`*`",
            TokenKind::Slash => "`/`",
            TokenKind::LeftParen => "`(`",
            TokenKind::RightParen => "`)`",
        }
    }
}

impl Expected {
    /// How what was expected is named in a message.
    pub open spec fn name(self) -> Seq<char> {
        match self {
            Expected::Statement => "`puts`"@,
            Expected::Operand => "a number or `(`"@,
            Expected::OperatorOrStatement => "an operator or `puts`"@,
            Expected::OperatorOrClosing => "an operator or `)`"@,
        }
    }

    /// Names what was expected.
    pub fn describe(self) -> (text: &'static str)
        ensures
            text@ == self.name(),
    {
        match self {
            Expected::Statement => "`puts`",
            Expected::Operand => "a number or `(`",
            Expected::OperatorOrStatement => "an operator or `puts`",
            Expected::OperatorOrClosing => "an operator or `)`",
        }
    }
}

impl Found {
    /// How what was found is named in a message.
    pub open spec fn name(self) -> Seq<char> {
        match self {
            Found::Token(kind) => kind.name(),
            Found::Unrecognized => "a byte that begins no token"@,
            Found::EndOfInput => "the end of the text"@,
        }
    }

    /// Names what was found.
    pub fn describe(self) -> (text: &'static str)
        ensures
            text@ == self.name(),
    {
        match self {
            Found::Token(kind) => kind.describe(),
            Found::Unrecognized => "a byte that begins no token",
            Found::EndOfInput => "the end of the text",
        }
    }
}

/// The character of the digit `digit`.
pub open spec fn digit_name(digit: nat) -> Seq<char> {
    if digit == 0 {
        "0"@
    } else if digit == 1 {
        "1"@
    } else if digit == 2 {
        "2"@
    } else if digit == 3 {
        "3"@
    } else if digit == 4 {
        "4"@
    } else if digit == 5 {
        "5"@
    } else if digit == 6 {
        "6"@
    } else if digit == 7 {
        "7"@
    } else if digit == 8 {
        "8"@
    } else {
        "9"@
    }
}

/// The number `number` in decimal digits, without leading zeros.
pub open spec fn digits_of(number: nat) -> Seq<char>
    decreases number,
{
    if number < 10 {
        digit_name(number)
    } else {
        digits_of(number / 10) + digit_name(number % 10)
    }
}

/// Writes `number` in decimal digits behind `text`.
fn write_number(text: &mut String, number: usize)
    ensures
        final(text)@ == old(text)@ + digits_of(number as nat),
    decreases number,
{
    if number >= 10 {
        write_number(text, number / 10);
    }
    let digit = number % 10;
    let name = if digit == 0 {
        "0"
    } else if digit == 1 {
        "1"
    } else if digit == 2 {
        "2"
    } else if digit == 3 {
        "3"
    } else if digit == 4 {
        "4"
    } else if digit == 5 {
        "5"
    } else if digit == 6 {
        "6"
    } else if digit == 7 {
        "7"
    } else if digit == 8 {
        "8"
    } else {
        "9"
    };
    text.append(name);
    assert(final(text)@ == old(text)@ + digits_of(number as nat)) by {
        if number >= 10 {
            assert(old(text)@ + digits_of((number / 10) as nat) + digit_name((number % 10) as nat)
                =~= old(text)@ + (digits_of((number / 10) as nat) + digit_name(
                (number % 10) as nat,
            )));
        }
    }
}

impl ParseError {
    /// The error in words: where the text stops being a program, what could
    /// have stood there, and what stands there.
    pub open spec fn description(self) -> Seq<char> {
        "syntax error at byte "@ + digits_of(self.position as nat) + ": expected "@
            + self.expected.name() + ", found "@ + self.found.name()
    }

    /// Says the error in words.
    pub fn message(&self) -> (text: String)
        ensures
            text@ == self.description(),
    {
        let mut text = String::from_str("syntax error at byte ");
        write_number(&mut text, self.position);
        text.append(": expected ");
        text.append(self.expected.describe());
        text.append(", found ");
        text.append(self.found.describe());
        text
    }
}

} // verus!
