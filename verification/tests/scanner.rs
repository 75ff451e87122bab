use lykiadb::ast::Literal;
use lykiadb::parser::tokens_are_parseable;
use lykiadb::scanner::{ScanError, Scanner};
use lykiadb::tokens::{Keyword, Span, SqlKeyword, Symbol, TokenType};

/// What a test expects of a literal: a number is compared by its value.
enum Lit {
    Absent,
    Str(String),
    Num(f64),
}

struct Expected {
    tok_type: TokenType,
    literal: Lit,
    lexeme: Option<String>,
    span: Span,
}

fn assert_tokens(source: &str, expected_tokens: Vec<Expected>) {
    let tokens = Scanner::scan(source).unwrap();
    assert_eq!(tokens.len(), expected_tokens.len());
    for (token, expected) in tokens.iter().zip(expected_tokens.iter()) {
        assert_eq!(token.tok_type, expected.tok_type);
        assert_eq!(token.lexeme, expected.lexeme);
        assert_eq!(token.span, expected.span);
        match (&token.literal, &expected.literal) {
            (None, Lit::Absent) => {}
            (Some(Literal::Str(s)), Lit::Str(e)) => assert_eq!(s, e),
            (Some(Literal::Num(raw)), Lit::Num(e)) => {
                assert_eq!(raw.parse::<f64>().unwrap(), *e)
            }
            _ => panic!("literal of {:?} differs", token),
        }
    }
}

#[test]
fn test_single_char_tokens() {
    assert_tokens(
        "(){};,+-*/.",
        vec![
            Expected {
                tok_type: TokenType::Symbol(Symbol::LeftParen),
                lexeme: Some("(".to_string()),
                literal: Lit::Absent,
                span: Span {
                    start: 0,
                    end: 1,
                    line: 0,
                    line_end: 0,
                },
            },
            Expected {
                tok_type: TokenType::Symbol(Symbol::RightParen),
                lexeme: Some(")".to_string()),
                literal: Lit::Absent,
                span: Span {
                    start: 1,
                    end: 2,
                    line: 0,
                    line_end: 0,
                },
            },
            Expected {
                tok_type: TokenType::Symbol(Symbol::LeftBrace),
                lexeme: Some("{".to_string()),
                literal: Lit::Absent,
                span: Span {
                    line: 0,
                    start: 2,
                    end: 3,
                    line_end: 0,
                },
            },
            Expected {
                tok_type: TokenType::Symbol(Symbol::RightBrace),
                lexeme: Some("}".to_string()),
                literal: Lit::Absent,
                span: Span {
                    line: 0,
                    start: 3,
                    end: 4,
                    line_end: 0,
                },
            },
            Expected {
                tok_type: TokenType::Symbol(Symbol::Semicolon),
                lexeme: Some(";".to_string()),
                literal: Lit::Absent,
                span: Span {
                    line: 0,
                    start: 4,
                    end: 5,
                    line_end: 0,
                },
            },
            Expected {
                lexeme: Some(",".to_string()),
                tok_type: TokenType::Symbol(Symbol::Comma),
                literal: Lit::Absent,
                span: Span {
                    line: 0,
                    start: 5,
                    end: 6,
                    line_end: 0,
                },
            },
            Expected {
                tok_type: TokenType::Symbol(Symbol::Plus),
                lexeme: Some("+".to_string()),
                literal: Lit::Absent,
                span: Span {
                    line: 0,
                    start: 6,
                    end: 7,
                    line_end: 0,
                },
            },
            Expected {
                tok_type: TokenType::Symbol(Symbol::Minus),
                lexeme: Some("-".to_string()),
                literal: Lit::Absent,
                span: Span {
                    line: 0,
                    start: 7,
                    end: 8,
                    line_end: 0,
                },
            },
            Expected {
                tok_type: TokenType::Symbol(Symbol::Star),
                lexeme: Some("*".to_string()),
                literal: Lit::Absent,
                span: Span {
                    line: 0,
                    start: 8,
                    end: 9,
                    line_end: 0,
                },
            },
            Expected {
                tok_type: TokenType::Symbol(Symbol::Slash),
                lexeme: Some("/".to_string()),
                literal: Lit::Absent,
                span: Span {
                    line: 0,
                    start: 9,
                    end: 10,
                    line_end: 0,
                },
            },
            Expected {
                tok_type: TokenType::Symbol(Symbol::Dot),
                lexeme: Some(".".to_string()),
                literal: Lit::Absent,
                span: Span {
                    line: 0,
                    start: 10,
                    end: 11,
                    line_end: 0,
                },
            },
            Expected {
                tok_type: TokenType::Eof,
                lexeme: None,
                literal: Lit::Absent,
                span: Span {
                    line: 0,
                    start: 12,
                    end: 12,
                    line_end: 0,
                },
            },
        ],
    );
}

#[test]
fn test_mixed_arbitrary() {
    assert_tokens(
        "123 123.456 \"hello world\" true false helloIdentifier",
        vec![
            Expected {
                tok_type: TokenType::Num,
                literal: Lit::Num(123.0),
                lexeme: Some("123".to_string()),
                span: Span {
                    line: 0,
                    start: 0,
                    end: 3,
                    line_end: 0,
                },
            },
            Expected {
                tok_type: TokenType::Num,
                literal: Lit::Num(123.456),
                lexeme: Some("123.456".to_string()),
                span: Span {
                    line: 0,
                    start: 4,
                    end: 11,
                    line_end: 0,
                },
            },
            Expected {
                tok_type: TokenType::Str,
                literal: Lit::Str("hello world".to_string()),
                lexeme: Some("hello world".to_string()),
                span: Span {
                    line: 0,
                    start: 12,
                    end: 25,
                    line_end: 0,
                },
            },
            Expected {
                tok_type: TokenType::True,
                literal: Lit::Absent,
                lexeme: Some("true".to_string()),
                span: Span {
                    line: 0,
                    start: 26,
                    end: 30,
                    line_end: 0,
                },
            },
            Expected {
                tok_type: TokenType::False,
                literal: Lit::Absent,
                lexeme: Some("false".to_string()),
                span: Span {
                    line: 0,
                    start: 31,
                    end: 36,
                    line_end: 0,
                },
            },
            Expected {
                tok_type: TokenType::Identifier { dollar: false },
                literal: Lit::Str("helloIdentifier".to_string()),
                lexeme: Some("helloIdentifier".to_string()),
                span: Span {
                    line: 0,
                    start: 37,
                    end: 52,
                    line_end: 0,
                },
            },
            Expected {
                tok_type: TokenType::Eof,
                literal: Lit::Absent,
                lexeme: None,
                span: Span {
                    line: 0,
                    start: 53,
                    end: 53,
                    line_end: 0,
                },
            },
        ],
    );
}
#[test]
fn test_identifiers() {
    assert_tokens(
        "$myPreciseVariable $my_precise_variable myPreciseFunction my_precise_function",
        vec![
            Expected {
                tok_type: TokenType::Identifier { dollar: true },
                literal: Lit::Str("$myPreciseVariable".to_string()),
                lexeme: Some("$myPreciseVariable".to_string()),
                span: Span {
                    line: 0,
                    start: 0,
                    end: 18,
                    line_end: 0,
                },
            },
            Expected {
                tok_type: TokenType::Identifier { dollar: true },
                literal: Lit::Str("$my_precise_variable".to_string()),
                lexeme: Some("$my_precise_variable".to_string()),
                span: Span {
                    line: 0,
                    start: 19,
                    end: 39,
                    line_end: 0,
                },
            },
            Expected {
                tok_type: TokenType::Identifier { dollar: false },
                literal: Lit::Str("myPreciseFunction".to_string()),
                lexeme: Some("myPreciseFunction".to_string()),
                span: Span {
                    line: 0,
                    start: 40,
                    end: 57,
                    line_end: 0,
                },
            },
            Expected {
                tok_type: TokenType::Identifier { dollar: false },
                literal: Lit::Str("my_precise_function".to_string()),
                lexeme: Some("my_precise_function".to_string()),
                span: Span {
                    line: 0,
                    start: 58,
                    end: 77,
                    line_end: 0,
                },
            },
            Expected {
                tok_type: TokenType::Eof,
                literal: Lit::Absent,
                lexeme: None,
                span: Span {
                    start: 78,
                    end: 78,
                    line: 0,
                    line_end: 0,
                },
            },
        ],
    );
}

#[test]
fn test_number_literals() {
    assert_tokens(
        "0 1 2 3 4 5 6 7 8 9 10 100 500 1000 1.7976931348623157E+308 1.7976931348623157E-308",
        vec![
            Expected {
                tok_type: TokenType::Num,
                lexeme: Some("0".to_string()),
                literal: Lit::Num(0.0),
                span: Span {
                    line: 0,
                    start: 0,
                    end: 1,
                    line_end: 0,
                },
            },
            Expected {
                tok_type: TokenType::Num,
                lexeme: Some("1".to_string()),
                literal: Lit::Num(1.0),
                span: Span {
                    line: 0,
                    start: 2,
                    end: 3,
                    line_end: 0,
                },
            },
            Expected {
                tok_type: TokenType::Num,
                lexeme: Some("2".to_string()),
                literal: Lit::Num(2.0),
                span: Span {
                    line: 0,
                    start: 4,
                    end: 5,
                    line_end: 0,
                },
            },
            Expected {
                tok_type: TokenType::Num,
                lexeme: Some("3".to_string()),
                literal: Lit::Num(3.0),
                span: Span {
                    line: 0,
                    start: 6,
                    end: 7,
                    line_end: 0,
                },
            },
            Expected {
                tok_type: TokenType::Num,
                lexeme: Some("4".to_string()),
                literal: Lit::Num(4.0),
                span: Span {
                    line: 0,
                    start: 8,
                    end: 9,
                    line_end: 0,
                },
            },
            Expected {
                tok_type: TokenType::Num,
                lexeme: Some("5".to_string()),
                literal: Lit::Num(5.0),
                span: Span {
                    line: 0,
                    start: 10,
                    end: 11,
                    line_end: 0,
                },
            },
            Expected {
                tok_type: TokenType::Num,
                lexeme: Some("6".to_string()),
                literal: Lit::Num(6.0),
                span: Span {
                    line: 0,
                    start: 12,
                    end: 13,
                    line_end: 0,
                },
            },
            Expected {
                tok_type: TokenType::Num,
                lexeme: Some("7".to_string()),
                literal: Lit::Num(7.0),
                span: Span {
                    line: 0,
                    start: 14,
                    end: 15,
                    line_end: 0,
                },
            },
            Expected {
                tok_type: TokenType::Num,
                lexeme: Some("8".to_string()),
                literal: Lit::Num(8.0),
                span: Span {
                    line: 0,
                    start: 16,
                    end: 17,
                    line_end: 0,
                },
            },
            Expected {
                tok_type: TokenType::Num,
                lexeme: Some("9".to_string()),
                literal: Lit::Num(9.0),
                span: Span {
                    line: 0,
                    start: 18,
                    end: 19,
                    line_end: 0,
                },
            },
            Expected {
                tok_type: TokenType::Num,
                lexeme: Some("10".to_string()),
                literal: Lit::Num(10.0),
                span: Span {
                    line: 0,
                    start: 20,
                    end: 22,
                    line_end: 0,
                },
            },
            Expected {
                tok_type: TokenType::Num,
                lexeme: Some("100".to_string()),
                literal: Lit::Num(100.0),
                span: Span {
                    line: 0,
                    start: 23,
                    end: 26,
                    line_end: 0,
                },
            },
            Expected {
                tok_type: TokenType::Num,
                lexeme: Some("500".to_string()),
                literal: Lit::Num(500.0),
                span: Span {
                    line: 0,
                    start: 27,
                    end: 30,
                    line_end: 0,
                },
            },
            Expected {
                tok_type: TokenType::Num,
                lexeme: Some("1000".to_string()),
                literal: Lit::Num(1000.0),
                span: Span {
                    line: 0,
                    start: 31,
                    end: 35,
                    line_end: 0,
                },
            },
            Expected {
                tok_type: TokenType::Num,
                lexeme: Some("1.7976931348623157E+308".to_string()),
                literal: Lit::Num(1.7976931348623157E+308),
                span: Span {
                    line: 0,
                    start: 36,
                    end: 59,
                    line_end: 0,
                },
            },
            Expected {
                tok_type: TokenType::Num,
                lexeme: Some("1.7976931348623157E-308".to_string()),
                literal: Lit::Num(1.7976931348623157E-308),
                span: Span {
                    line: 0,
                    start: 60,
                    end: 83,
                    line_end: 0,
                },
            },
            Expected {
                tok_type: TokenType::Eof,
                lexeme: None,
                literal: Lit::Absent,
                span: Span {
                    line: 0,
                    start: 84,
                    end: 84,
                    line_end: 0,
                },
            },
        ],
    );
}

#[test]
fn test_keywords() {
    assert_tokens(
        "and or class else for fun if break continue return super this var while loop",
        vec![
            Expected {
                tok_type: TokenType::Keyword(Keyword::And),
                lexeme: Some("and".to_string()),
                literal: Lit::Absent,
                span: Span {
                    line: 0,
                    start: 0,
                    end: 3,
                    line_end: 0,
                },
            },
            Expected {
                tok_type: TokenType::Keyword(Keyword::Or),
                lexeme: Some("or".to_string()),
                literal: Lit::Absent,
                span: Span {
                    line: 0,
                    start: 4,
                    end: 6,
                    line_end: 0,
                },
            },
            Expected {
                tok_type: TokenType::Keyword(Keyword::Class),
                lexeme: Some("class".to_string()),
                literal: Lit::Absent,
                span: Span {
                    line: 0,
                    start: 7,
                    end: 12,
                    line_end: 0,
                },
            },
            Expected {
                tok_type: TokenType::Keyword(Keyword::Else),
                lexeme: Some("else".to_string()),
                literal: Lit::Absent,
                span: Span {
                    line: 0,
                    start: 13,
                    end: 17,
                    line_end: 0,
                },
            },
            Expected {
                tok_type: TokenType::Keyword(Keyword::For),
                lexeme: Some("for".to_string()),
                literal: Lit::Absent,
                span: Span {
                    line: 0,
                    start: 18,
                    end: 21,
                    line_end: 0,
                },
            },
            Expected {
                tok_type: TokenType::Keyword(Keyword::Fun),
                lexeme: Some("fun".to_string()),
                literal: Lit::Absent,
                span: Span {
                    line: 0,
                    start: 22,
                    end: 25,
                    line_end: 0,
                },
            },
            Expected {
                tok_type: TokenType::Keyword(Keyword::If),
                lexeme: Some("if".to_string()),
                literal: Lit::Absent,
                span: Span {
                    line: 0,
                    start: 26,
                    end: 28,
                    line_end: 0,
                },
            },
            Expected {
                tok_type: TokenType::Keyword(Keyword::Break),
                lexeme: Some("break".to_string()),
                literal: Lit::Absent,
                span: Span {
                    line: 0,
                    start: 29,
                    end: 34,
                    line_end: 0,
                },
            },
            Expected {
                tok_type: TokenType::Keyword(Keyword::Continue),
                lexeme: Some("continue".to_string()),
                literal: Lit::Absent,
                span: Span {
                    line: 0,
                    start: 35,
                    end: 43,
                    line_end: 0,
                },
            },
            Expected {
                tok_type: TokenType::Keyword(Keyword::Return),
                lexeme: Some("return".to_string()),
                literal: Lit::Absent,
                span: Span {
                    line: 0,
                    start: 44,
                    end: 50,
                    line_end: 0,
                },
            },
            Expected {
                tok_type: TokenType::Keyword(Keyword::Super),
                lexeme: Some("super".to_string()),
                literal: Lit::Absent,
                span: Span {
                    line: 0,
                    start: 51,
                    end: 56,
                    line_end: 0,
                },
            },
            Expected {
                tok_type: TokenType::Keyword(Keyword::This),
                lexeme: Some("this".to_string()),
                literal: Lit::Absent,
                span: Span {
                    line: 0,
                    start: 57,
                    end: 61,
                    line_end: 0,
                },
            },
            Expected {
                tok_type: TokenType::Keyword(Keyword::Var),
                lexeme: Some("var".to_string()),
                literal: Lit::Absent,
                span: Span {
                    line: 0,
                    start: 62,
                    end: 65,
                    line_end: 0,
                },
            },
            Expected {
                tok_type: TokenType::Keyword(Keyword::While),
                lexeme: Some("while".to_string()),
                literal: Lit::Absent,
                span: Span {
                    line: 0,
                    start: 66,
                    end: 71,
                    line_end: 0,
                },
            },
            Expected {
                tok_type: TokenType::Keyword(Keyword::Loop),
                lexeme: Some("loop".to_string()),
                literal: Lit::Absent,
                span: Span {
                    line: 0,
                    start: 72,
                    end: 76,
                    line_end: 0,
                },
            },
            Expected {
                tok_type: TokenType::Eof,
                lexeme: None,
                literal: Lit::Absent,
                span: Span {
                    line: 0,
                    start: 77,
                    end: 77,
                    line_end: 0,
                },
            },
        ],
    );
}

#[test]
fn test_sql_keywords() {
    assert_tokens(
        "Begin Transaction Rollback Commit Where Having Asc Desc Order By Explain Is Not Null Offset Like Limit And Or Join Inner Outer Right Left On Create Insert Update Delete Drop Into Values Index Collection Select From As Cross Default Group Key Of Only Primary References Set System Unique Read Write", vec![
        Expected {tok_type: TokenType::SqlKeyword(SqlKeyword::Begin), literal: Lit::Absent, lexeme: Some("Begin".to_string()), span: Span { line: 0, start: 0, line_end: 0, end: 5 }},
        Expected {tok_type: TokenType::SqlKeyword(SqlKeyword::Transaction), literal: Lit::Absent, lexeme: Some("Transaction".to_string()) , span: Span { line: 0, start: 6, line_end: 0, end: 17 }},
        Expected {tok_type: TokenType::SqlKeyword(SqlKeyword::Rollback), literal: Lit::Absent, lexeme: Some("Rollback".to_string()), span: Span { line: 0, start: 18, line_end: 0, end: 26 }},
        Expected {tok_type: TokenType::SqlKeyword(SqlKeyword::Commit), literal: Lit::Absent , lexeme: Some("Commit".to_string()), span: Span {  line: 0, start: 27, line_end: 0, end: 33 }},
        Expected {tok_type: TokenType::SqlKeyword(SqlKeyword::Where), literal: Lit::Absent, lexeme: Some("Where".to_string()), span: Span { line: 0, start: 34, line_end: 0, end: 39 }},
        Expected {tok_type: TokenType::SqlKeyword(SqlKeyword::Having), literal: Lit::Absent , lexeme: Some("Having".to_string()), span: Span { line: 0, start: 40, line_end: 0, end: 46 }},
        Expected {tok_type: TokenType::SqlKeyword(SqlKeyword::Asc), literal: Lit::Absent, lexeme: Some("Asc".to_string()) , span: Span { line: 0, start: 47, line_end: 0, end: 50 }},
        Expected {tok_type: TokenType::SqlKeyword(SqlKeyword::Desc), literal: Lit::Absent, lexeme: Some("Desc".to_string()), span: Span { line: 0, start: 51, line_end: 0, end: 55 }},
        Expected {tok_type: TokenType::SqlKeyword(SqlKeyword::Order), literal: Lit::Absent, lexeme: Some("Order".to_string()), span: Span { line: 0, start: 56, line_end: 0, end: 61 }},
        Expected {tok_type: TokenType::SqlKeyword(SqlKeyword::By), literal: Lit::Absent, lexeme: Some("By".to_string()), span: Span { line: 0, start: 62, line_end: 0, end: 64 }},
        Expected {tok_type: TokenType::SqlKeyword(SqlKeyword::Explain), literal: Lit::Absent, lexeme: Some("Explain".to_string()), span: Span { line: 0, start: 65, line_end: 0, end: 72 }},
        Expected {tok_type: TokenType::SqlKeyword(SqlKeyword::Is), literal: Lit::Absent, lexeme: Some("Is".to_string()), span: Span { line: 0, start: 73, line_end: 0, end: 75 }},
        Expected {tok_type: TokenType::SqlKeyword(SqlKeyword::Not), literal: Lit::Absent, lexeme: Some("Not".to_string()), span: Span { line: 0, start: 76, line_end: 0, end: 79 }},
        Expected {tok_type: TokenType::SqlKeyword(SqlKeyword::Null), literal: Lit::Absent, lexeme: Some("Null".to_string()), span: Span { line: 0, start: 80, line_end: 0, end: 84 }},
        Expected {tok_type: TokenType::SqlKeyword(SqlKeyword::Offset), literal: Lit::Absent, lexeme: Some("Offset".to_string()), span: Span { line: 0, start: 85, line_end: 0, end: 91 }},
        Expected {tok_type: TokenType::SqlKeyword(SqlKeyword::Like), literal: Lit::Absent, lexeme: Some("Like".to_string()), span: Span { line: 0, start: 92, line_end: 0, end: 96 }},
        Expected {tok_type: TokenType::SqlKeyword(SqlKeyword::Limit), literal: Lit::Absent, lexeme: Some("Limit".to_string()), span: Span { line: 0, start: 97, line_end: 0, end: 102 }},
        Expected {tok_type: TokenType::SqlKeyword(SqlKeyword::And), literal: Lit::Absent, lexeme: Some("And".to_string()), span: Span { line: 0, start: 103, line_end: 0, end: 106 }},
        Expected {tok_type: TokenType::SqlKeyword(SqlKeyword::Or), literal: Lit::Absent, lexeme: Some("Or".to_string()), span: Span { line: 0, start: 107, line_end: 0, end: 109 }},
        Expected {tok_type: TokenType::SqlKeyword(SqlKeyword::Join), literal: Lit::Absent, lexeme: Some("Join".to_string()) , span: Span { line: 0, start: 110, line_end: 0, end: 114 }},
        Expected {tok_type: TokenType::SqlKeyword(SqlKeyword::Inner), literal: Lit::Absent, lexeme: Some("Inner".to_string()) , span: Span { line: 0, start: 115, line_end: 0, end: 120 }},
        Expected {tok_type: TokenType::SqlKeyword(SqlKeyword::Outer), literal: Lit::Absent, lexeme: Some("Outer".to_string()), span: Span { line: 0, start: 121, line_end: 0, end: 126 }},
        Expected {tok_type: TokenType::SqlKeyword(SqlKeyword::Right), literal: Lit::Absent, lexeme: Some("Right".to_string()), span: Span { line: 0, start: 127, line_end: 0, end: 132 }},
        Expected {tok_type: TokenType::SqlKeyword(SqlKeyword::Left), literal: Lit::Absent, lexeme: Some("Left".to_string()), span: Span { line: 0, start: 133, line_end: 0, end: 137 }},
        Expected {tok_type: TokenType::SqlKeyword(SqlKeyword::On), literal: Lit::Absent, lexeme: Some("On".to_string()) , span: Span { line: 0, start: 138, line_end: 0, end: 140 }},
        Expected {tok_type: TokenType::SqlKeyword(SqlKeyword::Create), literal: Lit::Absent, lexeme: Some("Create".to_string()), span: Span { line: 0, start: 141, line_end: 0, end: 147 }},
        Expected {tok_type: TokenType::SqlKeyword(SqlKeyword::Insert), literal: Lit::Absent, lexeme: Some("Insert".to_string()), span: Span { line: 0, start: 148, line_end: 0, end: 154 }},
        Expected {tok_type: TokenType::SqlKeyword(SqlKeyword::Update), literal: Lit::Absent, lexeme: Some("Update".to_string()), span: Span { line: 0, start: 155, line_end: 0, end: 161 }},
        Expected {tok_type: TokenType::SqlKeyword(SqlKeyword::Delete), literal: Lit::Absent, lexeme: Some("Delete".to_string()), span: Span { line: 0, start: 162, line_end: 0, end: 168 }},
        Expected {tok_type: TokenType::SqlKeyword(SqlKeyword::Drop), literal: Lit::Absent, lexeme: Some("Drop".to_string()) , span: Span { line: 0, start: 169, line_end: 0, end: 173 }},
        Expected {tok_type: TokenType::SqlKeyword(SqlKeyword::Into), literal: Lit::Absent, lexeme: Some("Into".to_string()) , span: Span { line: 0, start: 174, line_end: 0, end: 178 }},
        Expected {tok_type: TokenType::SqlKeyword(SqlKeyword::Values), literal: Lit::Absent , lexeme: Some("Values".to_string()), span: Span { line: 0, start: 179, line_end: 0, end: 185 }},
        Expected {tok_type: TokenType::SqlKeyword(SqlKeyword::Index), literal: Lit::Absent, lexeme: Some("Index".to_string()), span: Span { line: 0, start: 186, line_end: 0, end: 191 }},
        Expected {tok_type: TokenType::SqlKeyword(SqlKeyword::Collection), literal: Lit::Absent, lexeme: Some("Collection".to_string()), span: Span { line: 0, start: 192, line_end: 0, end: 202 }},
        Expected {tok_type: TokenType::SqlKeyword(SqlKeyword::Select), literal: Lit::Absent, lexeme: Some("Select".to_string()), span: Span { line: 0, start: 203, line_end: 0, end: 209 }},
        Expected {tok_type: TokenType::SqlKeyword(SqlKeyword::From), literal: Lit::Absent, lexeme: Some("From".to_string()), span: Span { line: 0, start: 210, line_end: 0, end: 214 }},
        Expected {tok_type: TokenType::SqlKeyword(SqlKeyword::As), literal: Lit::Absent, lexeme: Some("As".to_string()), span: Span { line: 0, start: 215, line_end: 0, end: 217 }},
        Expected {tok_type: TokenType::SqlKeyword(SqlKeyword::Cross), literal: Lit::Absent, lexeme: Some("Cross".to_string()), span: Span { line: 0, start: 218, line_end: 0, end: 223 }},
        Expected {tok_type: TokenType::SqlKeyword(SqlKeyword::Default), literal: Lit::Absent, lexeme: Some("Default".to_string()), span: Span { line: 0, start: 224, line_end: 0, end: 231 }},
        Expected {tok_type: TokenType::SqlKeyword(SqlKeyword::Group), literal: Lit::Absent, lexeme: Some("Group".to_string()), span: Span { line: 0, start: 232, line_end: 0, end: 237 }},
        Expected {tok_type: TokenType::SqlKeyword(SqlKeyword::Key), literal: Lit::Absent, lexeme: Some("Key".to_string()), span: Span { line: 0, start: 238, line_end: 0, end: 241 }},
        Expected {tok_type: TokenType::SqlKeyword(SqlKeyword::Of), literal: Lit::Absent, lexeme: Some("Of".to_string()), span: Span { line: 0, start: 242, line_end: 0, end: 244 }},
        Expected {tok_type: TokenType::SqlKeyword(SqlKeyword::Only), literal: Lit::Absent, lexeme: Some("Only".to_string()), span: Span { line: 0, start: 245, line_end: 0, end: 249 }},
        Expected {tok_type: TokenType::SqlKeyword(SqlKeyword::Primary), literal: Lit::Absent, lexeme: Some("Primary".to_string()), span: Span { line: 0, start: 250, line_end: 0, end: 257 }},
        Expected {tok_type: TokenType::SqlKeyword(SqlKeyword::References), literal: Lit::Absent, lexeme: Some("References".to_string()), span: Span { line: 0, start: 258, line_end: 0, end: 268 }},
        Expected {tok_type: TokenType::SqlKeyword(SqlKeyword::SetKw), literal: Lit::Absent, lexeme: Some("Set".to_string()), span: Span { line: 0, start: 269, line_end: 0, end: 272 }},
        Expected {tok_type: TokenType::SqlKeyword(SqlKeyword::System), literal: Lit::Absent, lexeme: Some("System".to_string()), span: Span { line: 0, start: 273, line_end: 0, end: 279 }},
        Expected {tok_type: TokenType::SqlKeyword(SqlKeyword::Unique), literal: Lit::Absent, lexeme: Some("Unique".to_string()) , span: Span { line: 0, start: 280, line_end: 0, end: 286 }},
        Expected {tok_type: TokenType::SqlKeyword(SqlKeyword::Read), literal: Lit::Absent, lexeme: Some("Read".to_string()), span: Span { line: 0, start: 287, line_end: 0, end: 291 }},
        Expected {tok_type: TokenType::SqlKeyword(SqlKeyword::Write), literal: Lit::Absent, lexeme: Some("Write".to_string()) , span: Span { line: 0, start: 292, line_end: 0, end: 297 }},
        Expected {tok_type: TokenType::Eof, literal: Lit::Absent, lexeme: None, span: Span { line: 0, start: 298, line_end: 0, end: 298 }},
    ]);
}

#[test]
fn scan_reports_errors_with_spans() {
    match Scanner::scan("\"abc") {
        Err(ScanError::UnterminatedString { span }) => {
            assert_eq!((span.start, span.end, span.line), (0, 3, 0))
        }
        other => panic!("unexpected {:?}", other),
    }
    match Scanner::scan("1e+") {
        Err(ScanError::MalformedNumberLiteral { span }) => assert_eq!((span.start, span.end), (0, 3)),
        other => panic!("unexpected {:?}", other),
    }
    match Scanner::scan("a\n  #") {
        Err(ScanError::UnexpectedCharacter { span }) => {
            assert_eq!((span.start, span.end, span.line), (4, 5, 1))
        }
        other => panic!("unexpected {:?}", other),
    }
}

#[test]
fn scan_skips_comments_and_counts_lines() {
    let tokens = Scanner::scan("a // comment\n/ b\n").unwrap();
    let types: Vec<TokenType> = tokens.iter().map(|t| t.tok_type).collect();
    assert_eq!(
        types,
        vec![
            TokenType::Identifier { dollar: false },
            TokenType::Symbol(Symbol::Slash),
            TokenType::Identifier { dollar: false },
            TokenType::Eof
        ]
    );
    assert_eq!(tokens[1].span.line, 1);
    assert_eq!(tokens[3].span.line, 2);
    assert_eq!(tokens[3].span.start, tokens[2].span.end + 1);
}

#[test]
fn scan_double_tokens_and_case_of_keywords() {
    let tokens = Scanner::scan("!= == <= >= ! = < > select SELECT Var var").unwrap();
    let types: Vec<TokenType> = tokens.iter().map(|t| t.tok_type).collect();
    assert_eq!(
        types,
        vec![
            TokenType::Symbol(Symbol::BangEqual),
            TokenType::Symbol(Symbol::EqualEqual),
            TokenType::Symbol(Symbol::LessEqual),
            TokenType::Symbol(Symbol::GreaterEqual),
            TokenType::Symbol(Symbol::Bang),
            TokenType::Symbol(Symbol::Equal),
            TokenType::Symbol(Symbol::Less),
            TokenType::Symbol(Symbol::Greater),
            TokenType::SqlKeyword(SqlKeyword::Select),
            TokenType::SqlKeyword(SqlKeyword::Select),
            TokenType::Identifier { dollar: false },
            TokenType::Keyword(Keyword::Var),
            TokenType::Eof
        ]
    );
}

#[test]
fn scan_checked_gives_none_where_the_scan_would_read_past_the_end() {
    assert!(Scanner::scan_checked("1.").is_none());
    assert!(Scanner::scan_checked("x = 12.").is_none());
    assert!(Scanner::scan_checked("1.5").unwrap().is_ok());
    assert!(Scanner::scan_checked("1.a").unwrap().is_ok());
}

#[test]
fn scanned_tokens_are_parseable() {
    let tokens = Scanner::scan("var $a = {x: \"s\", 2: 3.5};").unwrap();
    assert!(tokens_are_parseable(&tokens));
    let mut broken = tokens.clone();
    broken.pop();
    assert!(!tokens_are_parseable(&broken));
    let mut no_literal = tokens.clone();
    no_literal[1].literal = None;
    assert!(!tokens_are_parseable(&no_literal));
    assert!(tokens_are_parseable(&Vec::new()));
}

#[test]
fn string_spans_count_utf8_bytes() {
    let tokens = Scanner::scan("\"héllo\" x").unwrap();
    assert_eq!(tokens[0].span.end, 8);
    assert_eq!(tokens[0].lexeme.as_deref(), Some("héllo"));
    assert_eq!(tokens[1].span.start, 8);
}

#[test]
fn the_end_token_comes_last_one_past_the_last_token() {
    for source in ["", "   ", "// only a comment", "\n\n"] {
        let tokens = Scanner::scan(source).unwrap();
        assert_eq!(tokens.len(), 1);
        assert_eq!(tokens[0].tok_type, TokenType::Eof);
        assert_eq!((tokens[0].span.start, tokens[0].span.end), (0, 0));
        assert!(tokens[0].lexeme.is_none() && tokens[0].literal.is_none());
    }
    let tokens = Scanner::scan("a bc  ").unwrap();
    assert_eq!(tokens.len(), 3);
    assert_eq!(tokens[1].span.end, 4);
    assert_eq!((tokens[2].span.start, tokens[2].span.end), (5, 5));
    assert!(tokens[..2].iter().all(|t| t.tok_type != TokenType::Eof));
}

#[test]
fn tokens_cover_their_source_text_in_order() {
    let source = "var $a = \"hi\" <= 12.5; // c\nselect x";
    let tokens = Scanner::scan(source).unwrap();
    let n = tokens.len();
    for i in 0..n - 1 {
        let t = &tokens[i];
        assert!(t.span.start < t.span.end && t.span.end <= source.len());
        let text = &source[t.span.start..t.span.end];
        let lexeme = t.lexeme.clone().unwrap();
        if t.tok_type == TokenType::Str {
            assert_eq!(text, format!("\"{}\"", lexeme));
        } else {
            assert_eq!(text, lexeme);
        }
        assert_eq!(t.span.line, t.span.line_end);
        if i + 1 < n - 1 {
            assert!(t.span.end <= tokens[i + 1].span.start);
        }
    }
}

#[test]
fn token_lines_count_the_newlines_before_them() {
    let source = "a\nb\n\n// note\nc";
    let tokens = Scanner::scan(source).unwrap();
    let n = tokens.len();
    for t in &tokens[..n - 1] {
        let newlines = source[..t.span.start].matches('\n').count() as u32;
        assert_eq!(t.span.line, newlines);
    }
    assert_eq!(tokens[n - 1].span.line, 4);
}
