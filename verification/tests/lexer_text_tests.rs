use ason::cursor::Cursor;
use ason::lexer::lex;
use ason::token::{CommentToken, DateMoment, NumberLiteral, Token};
use ason::AsonError;

fn lex_from_str(s: &str) -> Result<Vec<Token>, AsonError> {
    let mut iter = Cursor::new(s.chars().collect());
    lex(&mut iter)
}

fn ident(s: &str) -> Token {
    Token::Identifier(s.chars().collect())
}

fn string(s: &str) -> Token {
    Token::String_(s.chars().collect())
}

fn line_comment(s: &str) -> Token {
    Token::Comment(CommentToken::Line(s.chars().collect()))
}

fn block_comment(s: &str) -> Token {
    Token::Comment(CommentToken::Block(s.chars().collect()))
}

fn document_comment(s: &str) -> Token {
    Token::Comment(CommentToken::Document(s.chars().collect()))
}

fn date(s: &str) -> Token {
    let d = chrono::DateTime::parse_from_rfc3339(s).unwrap();
    Token::Date(DateMoment {
        seconds: d.timestamp(),
        offset_seconds: d.offset().local_minus_utc(),
    })
}

#[test]
fn test_lex_char() {
    assert_eq!(lex_from_str("'a'").unwrap(), vec![Token::Char('a')]);

    assert_eq!(
        lex_from_str("('a')").unwrap(),
        vec![Token::LeftParen, Token::Char('a'), Token::RightParen]
    );

    assert_eq!(
        lex_from_str("'a' 'z'").unwrap(),
        vec![Token::Char('a'), Token::Char('z')]
    );

    // CJK
    assert_eq!(lex_from_str("'文'").unwrap(), vec![Token::Char('文')]);

    // emoji
    assert_eq!(lex_from_str("'😊'").unwrap(), vec![Token::Char('😊')]);

    // escape char `\r`
    assert_eq!(lex_from_str("'\\r'").unwrap(), vec![Token::Char('\r')]);

    // escape char `\n`
    assert_eq!(lex_from_str("'\\n'").unwrap(), vec![Token::Char('\n')]);

    // escape char `\t`
    assert_eq!(lex_from_str("'\\t'").unwrap(), vec![Token::Char('\t')]);

    // escape char `\\`
    assert_eq!(lex_from_str("'\\\\'").unwrap(), vec![Token::Char('\\')]);

    // escape char `\'`
    assert_eq!(lex_from_str("'\\\''").unwrap(), vec![Token::Char('\'')]);

    // escape char `"`
    assert_eq!(lex_from_str("'\\\"'").unwrap(), vec![Token::Char('"')]);

    // escape char `\0`
    assert_eq!(lex_from_str("'\\0'").unwrap(), vec![Token::Char('\0')]);

    // escape char, unicode
    assert_eq!(lex_from_str("'\\u{2d}'").unwrap(), vec![Token::Char('-')]);

    // escape char, unicode
    assert_eq!(lex_from_str("'\\u{6587}'").unwrap(), vec![Token::Char('文')]);

    // err: unsupported escape char \v
    assert!(matches!(lex_from_str("'\\v'"), Err(AsonError::Message(_))));

    // err: unsupported hex escape "\x.."
    assert!(matches!(
        lex_from_str("'\\x33'"),
        Err(AsonError::Message(_))
    ));

    // err: incomplete escape string
    assert!(matches!(lex_from_str("'a\\'"), Err(AsonError::Message(_))));

    // err: invalid unicode code point
    assert!(matches!(
        lex_from_str("'\\u{110000}'"),
        Err(AsonError::Message(_))
    ));

    // err: invalid unicode escape sequence
    assert!(matches!(
        lex_from_str("'\\u{12mn}''"),
        Err(AsonError::Message(_))
    ));

    // err: missing left brace for unicode escape sequence
    assert!(matches!(
        lex_from_str("'\\u1234'"),
        Err(AsonError::Message(_))
    ));

    // err: missing right brace for unicode escape sequence
    assert!(matches!(
        lex_from_str("'\\u{1234'"),
        Err(AsonError::Message(_))
    ));

    // err: missing right quote
    assert!(matches!(lex_from_str("'a"), Err(AsonError::Message(_))));
}

#[test]
fn test_lex_string() {
    assert_eq!(lex_from_str(r#""abc""#).unwrap(), vec![string("abc")]);

    assert_eq!(
        lex_from_str(r#"("abc")"#).unwrap(),
        vec![Token::LeftParen, string("abc"), Token::RightParen]
    );

    assert_eq!(
        lex_from_str(r#""abc" "xyz""#).unwrap(),
        vec![string("abc"), string("xyz")]
    );

    assert_eq!(
        lex_from_str("\"abc\"\n\n\"xyz\"").unwrap(),
        vec![
            string("abc"),
            Token::NewLine,
            Token::NewLine,
            string("xyz"),
        ]
    );

    // unicode
    assert_eq!(
        lex_from_str(
            r#"
                "abc文字😊"
                "#
        )
        .unwrap(),
        vec![Token::NewLine, string("abc文字😊"), Token::NewLine,]
    );

    // empty string
    assert_eq!(lex_from_str("\"\"").unwrap(), vec![string("")]);

    // escape chars
    assert_eq!(
        lex_from_str(
            r#"
                "\r\n\t\\\"\'\u{2d}\u{6587}\0"
                "#
        )
        .unwrap(),
        vec![
            Token::NewLine,
            string("\r\n\t\\\"\'-文\0"),
            Token::NewLine,
        ]
    );

    // err: unsupported escape char \v
    assert!(matches!(
        lex_from_str(
            r#"
                "abc\vxyz"
                "#
        ),
        Err(AsonError::Message(_))
    ));

    // err: unsupported hex escape "\x.."
    assert!(matches!(
        lex_from_str(
            r#"
                "abc\x33xyz"
                "#
        ),
        Err(AsonError::Message(_))
    ));

    // err: incomplete escape string
    assert!(matches!(
        lex_from_str(r#""abc\"#),
        Err(AsonError::Message(_))
    ));

    // err: invalid unicode code point
    assert!(matches!(
        lex_from_str(
            r#"
                "abc\u{110000}xyz"
                "#
        ),
        Err(AsonError::Message(_))
    ));

    // err: invalid unicode escape sequence
    assert!(matches!(
        lex_from_str(
            r#"
                "abc\u{12mn}xyz"
                "#
        ),
        Err(AsonError::Message(_))
    ));

    // err: missing left brace for unicode escape sequence
    assert!(matches!(
        lex_from_str(
            r#"
                "abc\u1234}xyz"
                "#
        ),
        Err(AsonError::Message(_))
    ));

    // err: missing right brace for unicode escape sequence
    assert!(matches!(
        lex_from_str(r#""abc\u{1234"#),
        Err(AsonError::Message(_))
    ));

    // err: missing right quote
    assert!(matches!(
        lex_from_str(
            r#"
                "abc
                "#
        ),
        Err(AsonError::Message(_))
    ));
}

#[test]
fn test_lex_multiple_line_string() {
    assert_eq!(
        lex_from_str("\"abc\ndef\n    uvw\r\n\t  \txyz\"").unwrap(),
        vec![string("abc\ndef\n    uvw\r\n\t  \txyz")]
    );

    // the tailing '\' should escape the new-line chars
    assert_eq!(
        lex_from_str("\"abc\\\ndef\\\n    uvw\\\r\n\t  \txyz\"").unwrap(),
        vec![string("abcdefuvwxyz")]
    );

    // the tailing '\' should escape the new-line chars and trim the leading white-spaces
    assert_eq!(
        lex_from_str("\"\\\n  \t  \"").unwrap(),
        vec![string("")]
    );

    // err: missing right quote
    assert!(matches!(
        lex_from_str("\"abc\\\n    "),
        Err(AsonError::Message(_))
    ));
}

#[test]
fn test_lex_law_string() {
    assert_eq!(
        lex_from_str("r\"abc\ndef\n    uvw\r\n\t escape: \\r\\n\\t\\\\ unicode: \\u{1234} xyz\"")
            .unwrap(),
        vec![string(
            "abc\ndef\n    uvw\r\n\t escape: \\r\\n\\t\\\\ unicode: \\u{1234} xyz"
        )]
    );

    // err: missing right quote
    assert!(matches!(
        lex_from_str("r\"abc    "),
        Err(AsonError::Message(_))
    ));
}

#[test]
fn test_lex_law_string_with_hash() {
    assert_eq!(
        lex_from_str(
            "r#\"abc\ndef\n    uvw\r\n\t escape: \\r\\n\\t\\\\ unicode: \\u{1234} xyz quote: \"foo\"\"#"
        )
            .unwrap(),
        vec![string(
            "abc\ndef\n    uvw\r\n\t escape: \\r\\n\\t\\\\ unicode: \\u{1234} xyz quote: \"foo\""
        )]
    );

    // err: missing the ending marker
    assert!(matches!(
        lex_from_str("r#\"abc    "),
        Err(AsonError::Message(_))
    ));
}

#[test]
fn test_lex_auto_trimmed_string() {
    assert_eq!(
        lex_from_str(
            r#"
                r|"
                one
                  two
                    three
                end
                "|
                "#
        )
        .unwrap(),
        vec![
            Token::NewLine,
            string("one\n  two\n    three\nend"),
            Token::NewLine,
        ]
    );

    assert_eq!(
        lex_from_str(
            r#"
                r|"
                one
              two
            three
                end
                "|
                "#
        )
        .unwrap(),
        vec![
            Token::NewLine,
            string("one\ntwo\nthree\nend"),
            Token::NewLine,
        ]
    );

    assert_eq!(
        lex_from_str(
            r#"
                r|"
                    one\\\"\t\r\n\u{1234}

                    end
                "|
                "#
        )
        .unwrap(),
        vec![
            Token::NewLine,
            string("one\\\\\\\"\\t\\r\\n\\u{1234}\n\nend"),
            Token::NewLine,
        ]
    );

    // test the ending mark ("|) does not start in a new line

    assert_eq!(
        lex_from_str(
            r#"
                r|"
                    one"|
                    two
                "|
                "#
        )
        .unwrap(),
        vec![
            Token::NewLine,
            string("one\"|\ntwo"),
            Token::NewLine,
        ]
    );

    // test inline
    assert_eq!(
        lex_from_str(
            r#"
                11 r|"
                    abc
                "| 13
                "#
        )
        .unwrap(),
        vec![
            Token::NewLine,
            Token::Number(NumberLiteral::Int(11)),
            string("abc"),
            Token::Number(NumberLiteral::Int(13)),
            Token::NewLine,
        ]
    );

    // err: the content does not start on a new line
    assert!(matches!(
        lex_from_str(
            r#"
                r|"hello"|
                "#
        ),
        Err(AsonError::Message(_))
    ));

    // err: the ending marker does not start on a new line
    assert!(matches!(
        lex_from_str(
            r#"
            r|"
            hello"|
            "#
        ),
        Err(AsonError::Message(_))
    ));

    // err: missing the ending marker
    assert!(matches!(
        lex_from_str(
            r#"
                r|"
                hello
                "#
        ),
        Err(AsonError::Message(_))
    ));
}

#[test]
fn test_lex_hex_byte_data() {
    assert_eq!(
        lex_from_str(
            r#"
                h""
                "#
        )
        .unwrap(),
        vec![Token::NewLine, Token::ByteData(vec![]), Token::NewLine]
    );

    assert_eq!(
        lex_from_str(
            r#"
                h"11131719"
                "#
        )
        .unwrap(),
        vec![
            Token::NewLine,
            Token::ByteData(vec![0x11, 0x13, 0x17, 0x19]),
            Token::NewLine,
        ]
    );

    assert_eq!(
        lex_from_str(
            r#"
                h"11 13 1719"
                "#
        )
        .unwrap(),
        vec![
            Token::NewLine,
            Token::ByteData(vec![0x11, 0x13, 0x17, 0x19]),
            Token::NewLine,
        ]
    );

    assert_eq!(
        lex_from_str(
            r#"
                h"11-13-1719"
                "#
        )
        .unwrap(),
        vec![
            Token::NewLine,
            Token::ByteData(vec![0x11, 0x13, 0x17, 0x19]),
            Token::NewLine,
        ]
    );

    assert_eq!(
        lex_from_str(
            r#"
                h"11:13:1719"
                "#
        )
        .unwrap(),
        vec![
            Token::NewLine,
            Token::ByteData(vec![0x11, 0x13, 0x17, 0x19]),
            Token::NewLine,
        ]
    );

    assert_eq!(
        lex_from_str(
            "
                h\"1113\n17\t19\"
                "
        )
        .unwrap(),
        vec![
            Token::NewLine,
            Token::ByteData(vec![0x11, 0x13, 0x17, 0x19]),
            Token::NewLine,
        ]
    );

    // err: incomplete byte string, the amount of digits should be even
    assert!(matches!(
        lex_from_str(
            r#"
                h"1113171"
                "#
        ),
        Err(AsonError::Message(_))
    ));

    // err: invalid char for byte string
    assert!(matches!(
        lex_from_str(
            r#"
                h"1113171z"
                "#
        ),
        Err(AsonError::Message(_))
    ));

    // err: missing the ending quote
    assert!(matches!(
        lex_from_str(
            r#"
                h"11131719
                "#
        ),
        Err(AsonError::Message(_))
    ));
}

#[test]
fn test_lex_line_comment() {
    assert_eq!(
        lex_from_str(
            r#"
                7 //11
                13 17// 19 23
                // 29
                31// 37
                "#
        )
        .unwrap(),
        vec![
            Token::NewLine,
            Token::Number(NumberLiteral::Int(7)),
            line_comment("11"),
            Token::Number(NumberLiteral::Int(13)),
            Token::Number(NumberLiteral::Int(17)),
            line_comment(" 19 23"),
            line_comment(" 29"),
            Token::Number(NumberLiteral::Int(31)),
            line_comment(" 37"),
            // note that the line comment includes the ending new line chars (\n or \r\n),
            // so there is NO `Token::NewLine` follows the line comment.
        ]
    );
}

#[test]
fn test_lex_block_comment() {
    assert_eq!(
        lex_from_str(
            r#"
                7 /* 11 13 */ 17
                "#
        )
        .unwrap(),
        vec![
            Token::NewLine,
            Token::Number(NumberLiteral::Int(7)),
            block_comment(" 11 13 "),
            Token::Number(NumberLiteral::Int(17)),
            Token::NewLine,
        ]
    );

    // nested block comment
    assert_eq!(
        lex_from_str(
            r#"
                7 /* 11 /* 13 */ 17 */ 19
                "#
        )
        .unwrap(),
        vec![
            Token::NewLine,
            Token::Number(NumberLiteral::Int(7)),
            block_comment(" 11 /* 13 */ 17 "),
            Token::Number(NumberLiteral::Int(19)),
            Token::NewLine,
        ]
    );

    // line comment chars "//" within the block comment
    assert_eq!(
        lex_from_str(
            r#"
                7 /* 11 // 13 17 */ 19
                "#
        )
        .unwrap(),
        vec![
            Token::NewLine,
            Token::Number(NumberLiteral::Int(7)),
            block_comment(" 11 // 13 17 "),
            Token::Number(NumberLiteral::Int(19)),
            Token::NewLine,
        ]
    );

    // document comment chars (""") within the block comment
    assert_eq!(
        lex_from_str(
            r#"
                7 /* 11
                """
                abc
                """
                13 */ 19
                "#
            .lines()
            .map(str::trim_start)
            .map(str::to_owned)
            .collect::<Vec<String>>()
            .join("\n")
            .as_str()
        )
        .unwrap(),
        vec![
            Token::NewLine,
            Token::Number(NumberLiteral::Int(7)),
            block_comment(" 11\n\"\"\"\nabc\n\"\"\"\n13 "),
            Token::Number(NumberLiteral::Int(19)),
            Token::NewLine,
        ]
    );

    // err: unpaired, missing the ending pair
    assert!(matches!(
        lex_from_str(
            r#"
                7 /* 11 /* 13 */ 17
                "#
        ),
        Err(AsonError::Message(_))
    ));

    // err: unpaired
    assert!(matches!(
        lex_from_str(
            r#"
                7 */ 11
                "#
        ),
        Err(AsonError::Message(_))
    ));
}

#[test]
fn test_lex_document_comment() {
    assert_eq!(
        lex_from_str(
            r#"
                """
                one
                  two
                    three
                end
                """
                "#
        )
        .unwrap(),
        vec![
            Token::NewLine,
            document_comment("one\n  two\n    three\nend"),
            // note that the ending marker includes the new line chars (\n or \r\n),
            // i.e., the ("""\n) or ("""\r\n), so there is NO `Token::NewLine` follows
            // the ending marker.
        ]
    );

    assert_eq!(
        lex_from_str(
            r#"
                """
                one
              two
            three
                end
                """
                "#
        )
        .unwrap(),
        vec![
            Token::NewLine,
            document_comment("one\ntwo\nthree\nend"),
        ]
    );

    assert_eq!(
        lex_from_str(
            r#"
                """
                    one\\\"\t\r\n\u{1234}

                    end
                """
                "#
        )
        .unwrap(),
        vec![
            Token::NewLine,
            document_comment("one\\\\\\\"\\t\\r\\n\\u{1234}\n\nend"),
        ]
    );

    assert_eq!(
        lex_from_str(
            r#"
                """
                    one"""
                    """two
                    """"
                    end
                """
                "#
        )
        .unwrap(),
        vec![
            Token::NewLine,
            document_comment("one\"\"\"\n\"\"\"two\n\"\"\"\"\nend"),
        ]
    );

    // err: the content does not start on a new line
    assert!(matches!(
        lex_from_str(
            r#"
                """hello"""
                "#
        ),
        Err(AsonError::Message(_))
    ));

    // err: the ending marker does not start on a new line
    assert!(matches!(
        lex_from_str(
            r#"
            """
            hello"""
            "#
        ),
        Err(AsonError::Message(_))
    ));

    // err: the ending marker does not occupy the whole line
    assert!(matches!(
        lex_from_str(
            r#"
                """
                hello
                """world
                "#
        ),
        Err(AsonError::Message(_))
    ));

    // err: missing the ending marker
    assert!(matches!(
        lex_from_str(
            r#"
                """
                hello
                "#
        ),
        Err(AsonError::Message(_))
    ));
}

#[test]
fn test_lex_datetime() {
    let expect_date1 = date("2024-03-16T16:30:50+08:00");
    let expect_date2 = date("2024-03-16T16:30:50Z");

    assert_eq!(
        lex_from_str("d\"2024-03-16T16:30:50+08:00\"").unwrap(),
        vec![expect_date1.clone()]
    );

    assert_eq!(
        lex_from_str("d\"2024-03-16T16:30:50Z\"").unwrap(),
        vec![expect_date2.clone()]
    );

    assert_eq!(
        lex_from_str("d\"2024-03-16T16:30:50z\"").unwrap(),
        vec![expect_date2.clone()]
    );

    assert_eq!(
        lex_from_str("d\"2024-03-16T16:30:50\"").unwrap(),
        vec![expect_date2.clone()]
    );

    assert_eq!(
        lex_from_str("d\"2024-03-16t16:30:50\"").unwrap(),
        vec![expect_date2.clone()]
    );

    assert_eq!(
        lex_from_str("d\"2024-03-16 16:30:50\"").unwrap(),
        vec![expect_date2.clone()]
    );

    // err: missing time
    assert!(matches!(
        lex_from_str("d\"16:30:50\""),
        Err(AsonError::Message(_))
    ));

    // err: missing date
    assert!(matches!(
        lex_from_str("d\"2024-03-16\""),
        Err(AsonError::Message(_))
    ));

    // err: not YYYY-MM-DD HH:mm:ss
    assert!(matches!(
        lex_from_str("d\"2024-3-16 4:30:50\""),
        Err(AsonError::Message(_))
    ));
}

#[test]
fn test_lex_compositive_tokens() {
    assert_eq!(
        lex_from_str(
            r#"
                {id: 123, name: "foo"}
                "#
        )
        .unwrap(),
        vec![
            Token::NewLine,
            Token::LeftBrace,
            ident("id"),
            Token::Colon,
            Token::Number(NumberLiteral::Int(123)),
            Token::Comma,
            ident("name"),
            Token::Colon,
            string("foo"),
            Token::RightBrace,
            Token::NewLine,
        ]
    );

    assert_eq!(
        lex_from_str(
            r#"
                [123,456,789,]
                "#
        )
        .unwrap(),
        vec![
            Token::NewLine,
            Token::LeftBracket,
            Token::Number(NumberLiteral::Int(123)),
            Token::Comma,
            Token::Number(NumberLiteral::Int(456)),
            Token::Comma,
            Token::Number(NumberLiteral::Int(789)),
            Token::Comma,
            Token::RightBracket,
            Token::NewLine,
        ]
    );

    assert_eq!(
        lex_from_str(
            r#"
                (123 "foo" true) // line comment
                "#
        )
        .unwrap(),
        vec![
            Token::NewLine,
            Token::LeftParen,
            Token::Number(NumberLiteral::Int(123)),
            string("foo"),
            Token::Boolean(true),
            Token::RightParen,
            line_comment(" line comment"),
        ]
    );

    assert_eq!(
        lex_from_str(
            r#"
                {
                    a: [1,2,3]
                    b: (false, d"2000-01-01 10:10:10")
                    c: {id: 11}
                }
                "#
        )
        .unwrap(),
        vec![
            Token::NewLine,
            Token::LeftBrace, // {
            Token::NewLine,
            ident("a"),
            Token::Colon,
            Token::LeftBracket, // [
            Token::Number(NumberLiteral::Int(1)),
            Token::Comma,
            Token::Number(NumberLiteral::Int(2)),
            Token::Comma,
            Token::Number(NumberLiteral::Int(3)),
            Token::RightBracket, // ]
            Token::NewLine,
            ident("b"),
            Token::Colon,
            Token::LeftParen, // (
            Token::Boolean(false),
            Token::Comma,
            date("2000-01-01T10:10:10Z"),
            Token::RightParen, // )
            Token::NewLine,
            ident("c"),
            Token::Colon,
            Token::LeftBrace, // {
            ident("id"),
            Token::Colon,
            Token::Number(NumberLiteral::Int(11)),
            Token::RightBrace, // }
            Token::NewLine,
            Token::RightBrace, // }
            Token::NewLine,
        ]
    );
}

#[test]
fn test_char_stream_from_reader() {
    {
        let mut charstream = ason::charstream::CharStream::new(b"abc".to_vec());

        assert_eq!(charstream.next().unwrap(), Some('a'));
        assert_eq!(charstream.next().unwrap(), Some('b'));
        assert_eq!(charstream.next().unwrap(), Some('c'));
        assert_eq!(charstream.next().unwrap(), None);
    }

    {
        let data = "a文b😋c".bytes().collect::<Vec<u8>>();
        let mut charstream = ason::charstream::CharStream::new(data);

        assert_eq!(charstream.next().unwrap(), Some('a'));
        assert_eq!(charstream.next().unwrap(), Some('文'));
        assert_eq!(charstream.next().unwrap(), Some('b'));
        assert_eq!(charstream.next().unwrap(), Some('😋'));
        assert_eq!(charstream.next().unwrap(), Some('c'));
        assert_eq!(charstream.next().unwrap(), None);
    }
}
