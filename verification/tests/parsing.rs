use belasova::ast::{BinaryOperator, Decimal, Expression, Program, Statement};
use belasova::parser::lexer::{tokenize, Token, TokenKind};
use belasova::parser::{parse, BelasovaParser, Expected, Found, ParseError};

fn literal(text: &str) -> Expression {
    Expression::Number(Decimal::new(text.as_bytes()).unwrap())
}

fn binary(left: Expression, op: BinaryOperator, right: Expression) -> Expression {
    Expression::BinaryOp { left: Box::new(left), op, right: Box::new(right) }
}

fn puts(expression: Expression) -> Statement {
    Statement::Puts(expression)
}

fn tree(source: &str) -> Expression {
    let mut program = parse(source).unwrap();
    assert_eq!(program.statements.len(), 1);
    match program.statements.remove(0) {
        Statement::Puts(expression) => expression,
    }
}

fn error(source: &str) -> ParseError {
    parse(source).unwrap_err()
}

fn kinds(source: &str) -> Vec<TokenKind> {
    tokenize(source.as_bytes()).0.iter().map(|token| token.kind).collect()
}

#[test]
fn the_empty_text_is_the_empty_program() {
    assert_eq!(parse("").unwrap(), Program { statements: vec![] });
    assert_eq!(parse(" \t\r\n ").unwrap(), Program { statements: vec![] });
}

#[test]
fn a_numeral_is_a_leaf() {
    assert_eq!(tree("puts 5"), literal("5"));
    assert_eq!(tree("puts 5.25"), literal("5.25"));
    assert_eq!(tree("puts 00.50"), literal("00.50"));
}

#[test]
fn tree_of_precedence() {
    assert_eq!(
        tree("puts 2 + 3 * 4"),
        binary(
            literal("2"),
            BinaryOperator::Add,
            binary(literal("3"), BinaryOperator::Multiply, literal("4")),
        )
    );
    assert_eq!(
        tree("puts 2 * 3 + 4"),
        binary(
            binary(literal("2"), BinaryOperator::Multiply, literal("3")),
            BinaryOperator::Add,
            literal("4"),
        )
    );
}

#[test]
fn tree_of_left_associativity() {
    assert_eq!(
        tree("puts 10 - 2 - 3"),
        binary(
            binary(literal("10"), BinaryOperator::Subtract, literal("2")),
            BinaryOperator::Subtract,
            literal("3"),
        )
    );
    assert_eq!(
        tree("puts 8 / 4 * 2"),
        binary(
            binary(literal("8"), BinaryOperator::Divide, literal("4")),
            BinaryOperator::Multiply,
            literal("2"),
        )
    );
}

#[test]
fn tree_of_parentheses() {
    assert_eq!(
        tree("puts (2 + 3) * 4"),
        binary(
            binary(literal("2"), BinaryOperator::Add, literal("3")),
            BinaryOperator::Multiply,
            literal("4"),
        )
    );
    assert_eq!(
        tree("puts 10 - (2 - 3)"),
        binary(
            literal("10"),
            BinaryOperator::Subtract,
            binary(literal("2"), BinaryOperator::Subtract, literal("3")),
        )
    );
    assert_eq!(tree("puts ((5))"), literal("5"));
}

#[test]
fn statements_keep_their_order() {
    assert_eq!(
        parse("puts 1\nputs 2 + 3\nputs 4").unwrap(),
        Program {
            statements: vec![
                puts(literal("1")),
                puts(binary(literal("2"), BinaryOperator::Add, literal("3"))),
                puts(literal("4")),
            ],
        }
    );
}

#[test]
fn white_space_only_separates() {
    let plain = parse("puts 1 + 2 * (3 - 4)").unwrap();
    assert_eq!(parse("puts 1+2*(3-4)").unwrap(), plain);
    assert_eq!(parse("\n\tputs\r\n1\n+\n2 *( 3\t-\t4 ) \n").unwrap(), plain);
    assert_eq!(parse("puts1+2*(3-4)").unwrap(), plain);
    assert_eq!(
        parse("puts 1puts 2").unwrap(),
        Program { statements: vec![puts(literal("1")), puts(literal("2"))] }
    );
}

#[test]
fn parsing_twice_gives_the_same_tree() {
    let source = "puts (1 + 2) * 3 - 4 / 5\nputs 6.75";
    assert_eq!(parse(source).unwrap(), parse(source).unwrap());
    assert_eq!(parse("puts 2 +"), parse("puts 2 +"));
}

#[test]
fn deep_nesting() {
    let depth = 200;
    let source = format!("puts {}1{}", "(".repeat(depth), ")".repeat(depth));
    assert_eq!(tree(&source), literal("1"));
}

#[test]
fn a_missing_operand_is_an_error() {
    assert_eq!(
        error("puts 2 +"),
        ParseError { position: 8, expected: Expected::Operand, found: Found::EndOfInput }
    );
    assert_eq!(
        error("puts"),
        ParseError { position: 4, expected: Expected::Operand, found: Found::EndOfInput }
    );
    assert_eq!(
        error("puts 2 + * 3"),
        ParseError {
            position: 9,
            expected: Expected::Operand,
            found: Found::Token(TokenKind::Star),
        }
    );
    assert_eq!(
        error("puts ()"),
        ParseError {
            position: 6,
            expected: Expected::Operand,
            found: Found::Token(TokenKind::RightParen),
        }
    );
    assert_eq!(
        error("puts puts 1"),
        ParseError {
            position: 5,
            expected: Expected::Operand,
            found: Found::Token(TokenKind::Puts),
        }
    );
}

#[test]
fn an_open_parenthesis_is_an_error() {
    assert_eq!(
        error("puts (2 + 3"),
        ParseError { position: 11, expected: Expected::OperatorOrClosing, found: Found::EndOfInput }
    );
    assert_eq!(
        error("puts (2 + 3 puts 4"),
        ParseError {
            position: 12,
            expected: Expected::OperatorOrClosing,
            found: Found::Token(TokenKind::Puts),
        }
    );
    assert_eq!(
        error("puts (2 3)"),
        ParseError {
            position: 8,
            expected: Expected::OperatorOrClosing,
            found: Found::Token(TokenKind::Number),
        }
    );
}

#[test]
fn an_unknown_word_is_an_error() {
    assert_eq!(
        error("foo 1"),
        ParseError { position: 0, expected: Expected::Statement, found: Found::Unrecognized }
    );
    assert_eq!(
        error("puts 1\nprint 2"),
        ParseError {
            position: 7,
            expected: Expected::OperatorOrStatement,
            found: Found::Unrecognized,
        }
    );
    assert_eq!(
        error("put 1"),
        ParseError { position: 0, expected: Expected::Statement, found: Found::Unrecognized }
    );
    assert_eq!(
        error("Puts 1"),
        ParseError { position: 0, expected: Expected::Statement, found: Found::Unrecognized }
    );
}

#[test]
fn a_text_must_begin_with_a_statement() {
    assert_eq!(
        error("1 + 2"),
        ParseError {
            position: 0,
            expected: Expected::Statement,
            found: Found::Token(TokenKind::Number),
        }
    );
    assert_eq!(
        error("  (puts 1)"),
        ParseError {
            position: 2,
            expected: Expected::Statement,
            found: Found::Token(TokenKind::LeftParen),
        }
    );
}

#[test]
fn what_follows_an_expression() {
    assert_eq!(
        error("puts 1 2"),
        ParseError {
            position: 7,
            expected: Expected::OperatorOrStatement,
            found: Found::Token(TokenKind::Number),
        }
    );
    assert_eq!(
        error("puts (1))"),
        ParseError {
            position: 8,
            expected: Expected::OperatorOrStatement,
            found: Found::Token(TokenKind::RightParen),
        }
    );
    assert_eq!(
        error("puts 1 (2)"),
        ParseError {
            position: 7,
            expected: Expected::OperatorOrStatement,
            found: Found::Token(TokenKind::LeftParen),
        }
    );
}

#[test]
fn the_first_error_in_the_text_is_reported() {
    assert_eq!(
        error("puts + $"),
        ParseError {
            position: 5,
            expected: Expected::Operand,
            found: Found::Token(TokenKind::Plus),
        }
    );
    assert_eq!(
        error("puts 1 + $ )"),
        ParseError { position: 9, expected: Expected::Operand, found: Found::Unrecognized }
    );
    assert_eq!(
        error("puts (1 # 2"),
        ParseError {
            position: 8,
            expected: Expected::OperatorOrClosing,
            found: Found::Unrecognized,
        }
    );
}

#[test]
fn malformed_numerals() {
    assert_eq!(
        error("puts 5."),
        ParseError {
            position: 6,
            expected: Expected::OperatorOrStatement,
            found: Found::Unrecognized,
        }
    );
    assert_eq!(
        error("puts .5"),
        ParseError { position: 5, expected: Expected::Operand, found: Found::Unrecognized }
    );
    assert_eq!(
        error("puts 1.2.3"),
        ParseError {
            position: 8,
            expected: Expected::OperatorOrStatement,
            found: Found::Unrecognized,
        }
    );
    assert_eq!(
        error("puts -1"),
        ParseError {
            position: 5,
            expected: Expected::Operand,
            found: Found::Token(TokenKind::Minus),
        }
    );
    assert_eq!(
        error("puts 1e5"),
        ParseError {
            position: 6,
            expected: Expected::OperatorOrStatement,
            found: Found::Unrecognized,
        }
    );
}

#[test]
fn bytes_outside_ascii_are_not_recognized() {
    assert_eq!(
        error("puts \u{e9}"),
        ParseError { position: 5, expected: Expected::Operand, found: Found::Unrecognized }
    );
    assert_eq!(
        error("puts 1 \u{2212} 2"),
        ParseError {
            position: 7,
            expected: Expected::OperatorOrStatement,
            found: Found::Unrecognized,
        }
    );
}

#[test]
fn the_recognizer_returns_the_tokens_of_a_program() {
    let tokens = BelasovaParser::parse("puts 12 * (3.5)").unwrap();
    assert_eq!(
        tokens,
        vec![
            Token { kind: TokenKind::Puts, start: 0, end: 4 },
            Token { kind: TokenKind::Number, start: 5, end: 7 },
            Token { kind: TokenKind::Star, start: 8, end: 9 },
            Token { kind: TokenKind::LeftParen, start: 10, end: 11 },
            Token { kind: TokenKind::Number, start: 11, end: 14 },
            Token { kind: TokenKind::RightParen, start: 14, end: 15 },
        ]
    );
    assert_eq!(BelasovaParser::parse("").unwrap(), vec![]);
}

#[test]
fn the_recognizer_and_the_parser_report_the_same() {
    for source in ["puts 2 +", "puts (2 + 3", "foo 1", "puts 1 )", "puts ((1)", "+"] {
        assert_eq!(BelasovaParser::parse(source).unwrap_err(), parse(source).unwrap_err());
    }
    for source in ["", "puts 1", "puts (1 + 2) * 3 puts 4"] {
        assert!(BelasovaParser::parse(source).is_ok());
        assert!(parse(source).is_ok());
    }
}

#[test]
fn tokens_are_as_long_as_they_can_be() {
    assert_eq!(
        tokenize(b"12.5+3"),
        (
            vec![
                Token { kind: TokenKind::Number, start: 0, end: 4 },
                Token { kind: TokenKind::Plus, start: 4, end: 5 },
                Token { kind: TokenKind::Number, start: 5, end: 6 },
            ],
            6
        )
    );
    assert_eq!(kinds("putsputs"), vec![TokenKind::Puts, TokenKind::Puts]);
    assert_eq!(
        kinds("+-*/()"),
        vec![
            TokenKind::Plus,
            TokenKind::Minus,
            TokenKind::Star,
            TokenKind::Slash,
            TokenKind::LeftParen,
            TokenKind::RightParen,
        ]
    );
}

#[test]
fn tokenizing_stops_at_the_first_unknown_byte() {
    assert_eq!(
        tokenize(b"puts 1 ? 2"),
        (
            vec![
                Token { kind: TokenKind::Puts, start: 0, end: 4 },
                Token { kind: TokenKind::Number, start: 5, end: 6 },
            ],
            7
        )
    );
    assert_eq!(tokenize(b"  "), (vec![], 2));
    assert_eq!(tokenize(b"pu"), (vec![], 0));
    assert_eq!(
        tokenize(b"7."),
        (vec![Token { kind: TokenKind::Number, start: 0, end: 1 }], 1)
    );
}

#[test]
fn decimal_accepts_numerals_only() {
    for text in ["0", "5", "5.25", "0005", "12345678901234567890.000001", "0.0"] {
        let decimal = Decimal::new(text.as_bytes()).unwrap();
        assert_eq!(decimal.as_bytes(), text.as_bytes());
    }
    for text in ["", ".", "5.", ".5", "1.2.3", "-1", "+1", "1e5", "1 ", " 1", "a", "1,5", "1..5"] {
        assert_eq!(Decimal::new(text.as_bytes()), None);
    }
}

#[test]
fn a_clone_is_equal() {
    let expression = tree("puts (1.5 + 2) * 3");
    assert_eq!(expression.clone(), expression);
    let decimal = Decimal::new(b"3.14").unwrap();
    assert_eq!(decimal.clone(), decimal);
}

#[test]
fn white_space_put_in_between_tokens_changes_nothing() {
    for source in ["puts (12.5+3)*4-5/6puts 7", "puts 1 + 2\nputs 3", "puts 1 +", "puts (", ""] {
        let expected = parse(source);
        let tokens = tokenize(source.as_bytes()).0;
        for at in 0..=source.len() {
            if tokens.iter().any(|token| token.start < at && at < token.end) {
                continue;
            }
            for space in [" ", "\t", "\n", "\r"] {
                let longer = format!("{}{}{}", &source[..at], space, &source[at..]);
                match (&expected, parse(&longer)) {
                    (Ok(program), Ok(other)) => assert_eq!(program, &other),
                    (Err(_), Err(_)) => {}
                    (left, right) => panic!("{:?} and {:?} at {}", left, right, at),
                }
            }
        }
    }
}

#[test]
fn white_space_put_inside_a_token_parts_it() {
    assert!(parse("puts 12").is_ok());
    assert!(parse("puts 1 2").is_err());
    assert!(parse("pu ts 12").is_err());
    assert!(parse("puts 1 .5").is_err());
    assert!(parse("puts 1. 5").is_err());
}

#[test]
fn as_many_statements_as_puts() {
    for (source, count) in [("", 0), ("puts 1", 1), ("puts (1) puts 2*3 puts 4", 3)] {
        let program = parse(source).unwrap();
        let tokens = BelasovaParser::parse(source).unwrap();
        let keywords = tokens.iter().filter(|token| token.kind == TokenKind::Puts).count();
        assert_eq!(program.statements.len(), count);
        assert_eq!(keywords, count);
    }
}

#[test]
fn every_numeral_is_an_expression() {
    for text in ["0", "5", "5.25", "000", "3.14159265358979323846264338327950288"] {
        let program = parse(&format!("puts {}", text)).unwrap();
        assert_eq!(program, Program { statements: vec![puts(literal(text))] });
    }
}

#[test]
fn an_error_in_words() {
    assert_eq!(
        error("puts 2 +").message(),
        "syntax error at byte 8: expected a number or `(`, found the end of the text"
    );
    assert_eq!(
        error("puts (2 + 3").message(),
        "syntax error at byte 11: expected an operator or `)`, found the end of the text"
    );
    assert_eq!(
        error("foo 1").message(),
        "syntax error at byte 0: expected `puts`, found a byte that begins no token"
    );
    assert_eq!(
        error("puts 1 2").message(),
        "syntax error at byte 7: expected an operator or `puts`, found a number"
    );
    let long = format!("{}puts )", " ".repeat(1234567));
    assert_eq!(
        error(&long).message(),
        "syntax error at byte 1234572: expected a number or `(`, found `)`"
    );
}

#[test]
fn every_name_in_a_message() {
    let kinds = [
        (TokenKind::Puts, "`puts`"),
        (TokenKind::Number, "a number"),
        (TokenKind::Plus, "`+`"),
        (TokenKind::Minus, "`-`"),
        (TokenKind::Star, "`*`"),
        (TokenKind::Slash, "`/`"),
        (TokenKind::LeftParen, "`(`"),
        (TokenKind::RightParen, "`)`"),
    ];
    for (kind, name) in kinds {
        assert_eq!(kind.describe(), name);
        assert_eq!(Found::Token(kind).describe(), name);
    }
    assert_eq!(Found::Unrecognized.describe(), "a byte that begins no token");
    assert_eq!(Found::EndOfInput.describe(), "the end of the text");
    assert_eq!(Expected::Statement.describe(), "`puts`");
    assert_eq!(Expected::Operand.describe(), "a number or `(`");
    assert_eq!(Expected::OperatorOrStatement.describe(), "an operator or `puts`");
    assert_eq!(Expected::OperatorOrClosing.describe(), "an operator or `)`");
    for position in [0usize, 9, 10, 99, 100, 1009, 18446744073709551615] {
        let error = ParseError { position, expected: Expected::Operand, found: Found::EndOfInput };
        assert_eq!(
            error.message(),
            format!(
                "syntax error at byte {}: expected a number or `(`, found the end of the text",
                position
            )
        );
    }
}
