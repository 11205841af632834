use ason::cursor::Cursor;
use ason::lexer::lex;
use ason::sanitizer::sanitize;
use ason::token::{NumberLiteral, Token};
use ason::AsonError;

fn lex_from_str(s: &str) -> Result<Vec<Token>, AsonError> {
    let mut iter = Cursor::new(s.chars().collect());
    lex(&mut iter)
}

fn sanitize_str(s: &str) -> Result<Vec<Token>, AsonError> {
    sanitize(lex_from_str(s)?)
}

#[test]
fn test_sanitize_new_lines_and_commas() {
    assert_eq!(
        lex_from_str(
            r#"
                [1,2,

                3


                ]
                "#
        )
        .unwrap(),
        vec![
            Token::NewLine,
            Token::LeftBracket,
            Token::Number(NumberLiteral::Int(1)),
            Token::Comma,
            Token::Number(NumberLiteral::Int(2)),
            Token::Comma,
            Token::NewLine,
            Token::NewLine,
            Token::Number(NumberLiteral::Int(3)),
            Token::NewLine,
            Token::NewLine,
            Token::NewLine,
            Token::RightBracket,
            Token::NewLine,
        ]
    );

    assert_eq!(
        sanitize(
            lex_from_str(
                r#"
                    [1,2,

                    3


                    ]
                    "#
            )
            .unwrap()
        )
        .unwrap(),
        vec![
            Token::LeftBracket,
            Token::Number(NumberLiteral::Int(1)),
            Token::NewLine,
            Token::Number(NumberLiteral::Int(2)),
            Token::NewLine,
            Token::Number(NumberLiteral::Int(3)),
            Token::NewLine,
            Token::RightBracket,
        ]
    );
}

#[test]
fn test_sanitize_plus_minus_and_floating_point_numbers() {}

#[test]
fn test_sanitize_folds_minus_into_number() {
    // a minus sign directly before a number folds into the literal
    assert_eq!(
        sanitize_str("-2017").unwrap(),
        vec![Token::Number(NumberLiteral::Int(-2017))]
    );

    assert_eq!(
        sanitize_str("-127@byte").unwrap(),
        vec![Token::Number(NumberLiteral::Byte(-127))]
    );

    assert_eq!(
        sanitize_str("-3.5").unwrap(),
        vec![Token::Number(NumberLiteral::Float((-3.5f32).to_bits()))]
    );

    assert_eq!(
        sanitize_str("-1.25@double").unwrap(),
        vec![Token::Number(NumberLiteral::Double((-1.25f64).to_bits()))]
    );

    // err: a minus sign cannot apply to an unsigned width
    assert!(matches!(
        sanitize_str("-1@ubyte"),
        Err(AsonError::Message(_))
    ));

    assert!(matches!(
        sanitize_str("-1@ulong"),
        Err(AsonError::Message(_))
    ));

    // err: a minus sign cannot apply to something other than a number
    assert!(matches!(sanitize_str("-true"), Err(AsonError::Message(_))));

    // err: a minus sign at the end of the document
    assert!(matches!(
        sanitize_str("-"),
        Err(AsonError::UnexpectedEndOfDocument(_))
    ));
}

#[test]
fn test_sanitize_folds_plus_away() {
    // a plus sign directly before a number vanishes
    assert_eq!(
        sanitize_str("+2024").unwrap(),
        vec![Token::Number(NumberLiteral::Int(2024))]
    );

    assert_eq!(
        sanitize_str("+127@byte").unwrap(),
        vec![Token::Number(NumberLiteral::Byte(127))]
    );

    // err: no sign applies to NaN
    assert!(matches!(sanitize_str("+NaN"), Err(AsonError::Message(_))));

    assert!(matches!(sanitize_str("-NaN"), Err(AsonError::Message(_))));

    // err: a plus sign cannot apply to something other than a number
    assert!(matches!(sanitize_str("+true"), Err(AsonError::Message(_))));

    // err: a plus sign at the end of the document
    assert!(matches!(
        sanitize_str("+"),
        Err(AsonError::UnexpectedEndOfDocument(_))
    ));
}

#[test]
fn test_sanitize_removes_comments_and_document_edges() {
    // leading and trailing separators and all comments vanish
    assert_eq!(
        sanitize_str("\n\n// note\n7 /* inline */ 11\n").unwrap(),
        vec![
            Token::Number(NumberLiteral::Int(7)),
            Token::Number(NumberLiteral::Int(11)),
        ]
    );

    // a run of line breaks broken by a comment still folds into one
    assert_eq!(
        sanitize_str("1\n/* c */\n2").unwrap(),
        vec![
            Token::Number(NumberLiteral::Int(1)),
            Token::NewLine,
            Token::Number(NumberLiteral::Int(2)),
        ]
    );
}
