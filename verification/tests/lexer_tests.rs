use ason::cursor::Cursor;
use ason::lexer::lex;
use ason::token::{NumberLiteral, Token};
use ason::AsonError;

fn lex_from_str(s: &str) -> Result<Vec<Token>, AsonError> {
    let mut iter = Cursor::new(s.chars().collect());
    lex(&mut iter)
}

fn ident(s: &str) -> Token {
    Token::Identifier(s.chars().collect())
}

fn variant(s: &str) -> Token {
    Token::Variant(s.chars().collect())
}

fn string(s: &str) -> Token {
    Token::String_(s.chars().collect())
}


#[test]
fn test_lex_white_spaces() {
    assert_eq!(lex_from_str("  ").unwrap(), vec![]);

    assert_eq!(
        lex_from_str("()").unwrap(),
        vec![Token::LeftParen, Token::RightParen]
    );

    assert_eq!(
        lex_from_str("(  )").unwrap(),
        vec![Token::LeftParen, Token::RightParen]
    );

    assert_eq!(
        lex_from_str("(\t\r\n\n\r)").unwrap(),
        vec![
            Token::LeftParen,
            Token::NewLine,
            Token::NewLine,
            Token::NewLine,
            Token::RightParen,
        ]
    );
}

#[test]
fn test_lex_punctuations() {
    assert_eq!(
        lex_from_str(":{[],()}+-").unwrap(),
        vec![
            Token::Colon,
            Token::LeftBrace,
            Token::LeftBracket,
            Token::RightBracket,
            Token::Comma,
            Token::LeftParen,
            Token::RightParen,
            Token::RightBrace,
            Token::Plus,
            Token::Minus
        ]
    );
}

#[test]
fn test_lex_identifier() {
    assert_eq!(lex_from_str("name").unwrap(), vec![ident("name")]);

    assert_eq!(
        lex_from_str("(name)").unwrap(),
        vec![Token::LeftParen, ident("name"), Token::RightParen]
    );

    assert_eq!(
        lex_from_str("( a )").unwrap(),
        vec![Token::LeftParen, ident("a"), Token::RightParen]
    );

    assert_eq!(lex_from_str("a__b__c").unwrap(), vec![ident("a__b__c")]);

    assert_eq!(
        lex_from_str("foo bar").unwrap(),
        vec![ident("foo"), ident("bar")]
    );

    assert_eq!(
        lex_from_str("αβγ 文字 🍞🥛").unwrap(),
        vec![ident("αβγ"), ident("文字"), ident("🍞🥛")]
    );

    // err: starts with number
    assert!(matches!(lex_from_str("1abc"), Err(AsonError::Message(_))));

    // err: invalid char
    assert!(matches!(
        lex_from_str("abc&xyz"),
        Err(AsonError::Message(_))
    ));
}

#[test]
fn test_lex_variant() {
    assert_eq!(
        lex_from_str("Option::None").unwrap(),
        vec![variant("Option::None")]
    );

    assert_eq!(
        lex_from_str("Option::Some(123)").unwrap(),
        vec![
            variant("Option::Some"),
            Token::LeftParen,
            Token::Number(NumberLiteral::Int(123)),
            Token::RightParen,
        ]
    );

    assert_eq!(
        lex_from_str("value: Result::Ok(456)").unwrap(),
        vec![
            ident("value"),
            Token::Colon,
            variant("Result::Ok"),
            Token::LeftParen,
            Token::Number(NumberLiteral::Int(456)),
            Token::RightParen,
        ]
    );
}

#[test]
fn test_lex_keyword() {
    assert_eq!(lex_from_str("true").unwrap(), vec![Token::Boolean(true)]);

    assert_eq!(lex_from_str("false").unwrap(), vec![Token::Boolean(false)]);

    assert_eq!(
        lex_from_str("true false").unwrap(),
        vec![Token::Boolean(true), Token::Boolean(false)]
    );

    assert_eq!(
        lex_from_str("Inf Inf@float Inf@f32 Inf@double Inf@f64").unwrap(),
        vec![
            Token::Number(NumberLiteral::Float(f32::INFINITY.to_bits())),
            Token::Number(NumberLiteral::Float(f32::INFINITY.to_bits())),
            Token::Number(NumberLiteral::Float(f32::INFINITY.to_bits())),
            Token::Number(NumberLiteral::Double(f64::INFINITY.to_bits())),
            Token::Number(NumberLiteral::Double(f64::INFINITY.to_bits())),
        ]
    );

    let nans = lex_from_str("NaN NaN@float NaN@f32 NaN@double NaN@f64").unwrap();
    assert!(matches!(&nans[0], Token::Number(NumberLiteral::Float(v)) if f32::from_bits(*v).is_nan()));
    assert!(matches!(&nans[1], Token::Number(NumberLiteral::Float(v)) if f32::from_bits(*v).is_nan()));
    assert!(matches!(&nans[2], Token::Number(NumberLiteral::Float(v)) if f32::from_bits(*v).is_nan()));
    assert!(matches!(&nans[3], Token::Number(NumberLiteral::Double(v)) if f64::from_bits(*v).is_nan()));
    assert!(matches!(&nans[4], Token::Number(NumberLiteral::Double(v)) if f64::from_bits(*v).is_nan()));

    // err: invalid data type for Inf
    assert!(matches!(
        lex_from_str("Inf@int"),
        Err(AsonError::Message(_))
    ));

    // err: invalid data type for NaN
    assert!(matches!(
        lex_from_str("NaN@int"),
        Err(AsonError::Message(_))
    ));
}

#[test]
fn test_lex_decimal_number() {
    assert_eq!(
        lex_from_str("(211)").unwrap(),
        vec![
            Token::LeftParen,
            Token::Number(NumberLiteral::Int(211)),
            Token::RightParen,
        ]
    );

    assert_eq!(
        lex_from_str("211").unwrap(),
        vec![Token::Number(NumberLiteral::Int(211))]
    );

    assert_eq!(
        lex_from_str("-2017").unwrap(),
        vec![Token::Minus, Token::Number(NumberLiteral::Int(2017))]
    );

    assert_eq!(
        lex_from_str("+2024").unwrap(),
        vec![Token::Plus, Token::Number(NumberLiteral::Int(2024))]
    );

    assert_eq!(
        lex_from_str("223_211").unwrap(),
        vec![Token::Number(NumberLiteral::Int(223_211))]
    );

    assert_eq!(
        lex_from_str("223 211").unwrap(),
        vec![
            Token::Number(NumberLiteral::Int(223)),
            Token::Number(NumberLiteral::Int(211)),
        ]
    );

    assert_eq!(
        lex_from_str("3.14").unwrap(),
        vec![Token::Number(NumberLiteral::Float(3.14f32.to_bits()))]
    );

    assert_eq!(
        lex_from_str("+1.414").unwrap(),
        vec![
            Token::Plus,
            Token::Number(NumberLiteral::Float(1.414f32.to_bits()))
        ]
    );

    assert_eq!(
        lex_from_str("-2.718").unwrap(),
        vec![
            Token::Minus,
            Token::Number(NumberLiteral::Float(2.718f32.to_bits()))
        ]
    );

    assert_eq!(
        lex_from_str("2.998e8").unwrap(),
        vec![Token::Number(NumberLiteral::Float(2.998e8f32.to_bits()))]
    );

    assert_eq!(
        lex_from_str("2.998e+8").unwrap(),
        vec![Token::Number(NumberLiteral::Float(2.998e+8f32.to_bits()))]
    );

    assert_eq!(
        lex_from_str("6.626e-34").unwrap(),
        vec![Token::Number(NumberLiteral::Float(6.626e-34f32.to_bits()))]
    );

    // err: invalid char for decimal number
    assert!(matches!(
        lex_from_str("123XYZ"),
        Err(AsonError::Message(_))
    ));

    // err: unsupported start with dot
    assert!(matches!(lex_from_str(".123"), Err(AsonError::Message(_))));

    // err: multiple points
    assert!(matches!(
        lex_from_str("1.23.456"),
        Err(AsonError::Message(_))
    ));

    // err: multiple exponent marks
    assert!(matches!(lex_from_str("1e2e3"), Err(AsonError::Message(_))));

    // err: incomplete floating point number
    assert!(matches!(lex_from_str("123."), Err(AsonError::Message(_))));

    // err: incomplete exponent
    assert!(matches!(lex_from_str("123e"), Err(AsonError::Message(_))));
}

#[test]
fn test_lex_decimal_number_with_explicit_type() {
    // byte
    {
        assert_eq!(
            lex_from_str("127@byte").unwrap(),
            vec![Token::Number(NumberLiteral::Byte(127))]
        );

        assert_eq!(
            lex_from_str("255@ubyte").unwrap(),
            vec![Token::Number(NumberLiteral::UByte(255))]
        );

        // err: signed overflow
        assert!(matches!(
            lex_from_str("128@byte"),
            Err(AsonError::Message(_))
        ));

        // err: unsigned overflow
        assert!(matches!(
            lex_from_str("256@ubyte"),
            Err(AsonError::Message(_))
        ));
    }

    // short
    {
        assert_eq!(
            lex_from_str("32767@short").unwrap(),
            vec![Token::Number(NumberLiteral::Short(32767))]
        );

        assert_eq!(
            lex_from_str("65535@ushort").unwrap(),
            vec![Token::Number(NumberLiteral::UShort(65535))]
        );

        // err: signed overflow
        assert!(matches!(
            lex_from_str("32768@short"),
            Err(AsonError::Message(_))
        ));

        // err: unsigned overflow
        assert!(matches!(
            lex_from_str("65536@ushort"),
            Err(AsonError::Message(_))
        ));
    }

    // int
    {
        assert_eq!(
            lex_from_str("2_147_483_647@int").unwrap(),
            vec![Token::Number(NumberLiteral::Int(2_147_483_647i32))]
        );

        assert_eq!(
            lex_from_str("4_294_967_295@uint").unwrap(),
            vec![Token::Number(NumberLiteral::UInt(u32::MAX))]
        );

        // err: signed overflow
        assert!(matches!(
            lex_from_str("2_147_483_648@int"),
            Err(AsonError::Message(_))
        ));

        // err: unsigned overflow
        assert!(matches!(
            lex_from_str("4_294_967_296@uint"),
            Err(AsonError::Message(_))
        ));
    }

    // long
    {
        assert_eq!(
            lex_from_str("9_223_372_036_854_775_807@long").unwrap(),
            vec![Token::Number(NumberLiteral::Long(9_223_372_036_854_775_807i64)),]
        );

        assert_eq!(
            lex_from_str("18_446_744_073_709_551_615@ulong").unwrap(),
            vec![Token::Number(NumberLiteral::ULong(u64::MAX))]
        );

        // err: signed overflow
        assert!(matches!(
            lex_from_str("9_223_372_036_854_775_808@long"),
            Err(AsonError::Message(_))
        ));

        // err: unsigned overflow
        assert!(matches!(
            lex_from_str("18_446_744_073_709_551_616@ulong"),
            Err(AsonError::Message(_))
        ));
    }

    // float
    {
        assert_eq!(
            lex_from_str("3.402_823_5e+38@float").unwrap(),
            vec![Token::Number(NumberLiteral::Float(3.402_823_5e38f32.to_bits()))]
        );

        assert_eq!(
            lex_from_str("1.175_494_4e-38@float").unwrap(),
            vec![Token::Number(NumberLiteral::Float(1.175_494_4e-38f32.to_bits()))]
        );

        // err: overflow
        assert!(matches!(
            lex_from_str("3.4e39@float"),
            Err(AsonError::Message(_))
        ));
    }

    // double
    {
        assert_eq!(
            lex_from_str("1.797_693_134_862_315_7e+308@double").unwrap(),
            vec![Token::Number(NumberLiteral::Double(
                1.797_693_134_862_315_7e308_f64.to_bits()
            )),]
        );

        assert_eq!(
            lex_from_str("2.2250738585072014e-308@double").unwrap(),
            vec![Token::Number(NumberLiteral::Double(
                2.2250738585072014e-308f64.to_bits()
            )),]
        );

        // err: overflow
        assert!(matches!(
            lex_from_str("1.8e309@double"),
            Err(AsonError::Message(_))
        ));
    }
}

#[test]
fn test_lex_decimal_number_with_rust_style_type_name() {
    assert_eq!(
        lex_from_str("11@i8").unwrap(),
        vec![Token::Number(NumberLiteral::Byte(11))]
    );

    assert_eq!(
        lex_from_str("13@u8").unwrap(),
        vec![Token::Number(NumberLiteral::UByte(13))]
    );

    assert_eq!(
        lex_from_str("17@i16").unwrap(),
        vec![Token::Number(NumberLiteral::Short(17))]
    );

    assert_eq!(
        lex_from_str("19@u16").unwrap(),
        vec![Token::Number(NumberLiteral::UShort(19))]
    );

    assert_eq!(
        lex_from_str("23@i32").unwrap(),
        vec![Token::Number(NumberLiteral::Int(23))]
    );

    assert_eq!(
        lex_from_str("29@u32").unwrap(),
        vec![Token::Number(NumberLiteral::UInt(29))]
    );

    assert_eq!(
        lex_from_str("31@i64").unwrap(),
        vec![Token::Number(NumberLiteral::Long(31))]
    );

    assert_eq!(
        lex_from_str("37@u64").unwrap(),
        vec![Token::Number(NumberLiteral::ULong(37))]
    );

    assert_eq!(
        lex_from_str("1.23@f32").unwrap(),
        vec![Token::Number(NumberLiteral::Float(1.23f32.to_bits()))]
    );

    assert_eq!(
        lex_from_str("1.23@f64").unwrap(),
        vec![Token::Number(NumberLiteral::Double(1.23f64.to_bits()))]
    );
}

#[test]
fn test_lex_decimal_number_with_unit_prefix() {
    // metric prefix
    {
        assert_eq!(
            lex_from_str("1K").unwrap(),
            vec![Token::Number(NumberLiteral::Int(10_i32.pow(3)))]
        );

        assert_eq!(
            lex_from_str("1M").unwrap(),
            vec![Token::Number(NumberLiteral::Int(10_i32.pow(6)))]
        );

        assert_eq!(
            lex_from_str("1G").unwrap(),
            vec![Token::Number(NumberLiteral::Int(10_i32.pow(9)))]
        );
    }

    // both metric prefix and number type
    {
        assert_eq!(
            lex_from_str("1K@long").unwrap(),
            vec![Token::Number(NumberLiteral::Long(10_i64.pow(3)))]
        );

        assert_eq!(
            lex_from_str("1M@long").unwrap(),
            vec![Token::Number(NumberLiteral::Long(10_i64.pow(6)))]
        );

        assert_eq!(
            lex_from_str("1G@long").unwrap(),
            vec![Token::Number(NumberLiteral::Long(10_i64.pow(9)))]
        );

        assert_eq!(
            lex_from_str("1T@ulong").unwrap(),
            vec![Token::Number(NumberLiteral::ULong(10_u64.pow(12)))]
        );

        assert_eq!(
            lex_from_str("1P@ulong").unwrap(),
            vec![Token::Number(NumberLiteral::ULong(10_u64.pow(15)))]
        );

        assert_eq!(
            lex_from_str("1E@ulong").unwrap(),
            vec![Token::Number(NumberLiteral::ULong(10_u64.pow(18)))]
        );
    }

    // binary unit prefix
    {
        assert_eq!(
            lex_from_str("1Ki").unwrap(),
            vec![Token::Number(NumberLiteral::Int(2_i32.pow(10)))]
        );

        assert_eq!(
            lex_from_str("1Mi").unwrap(),
            vec![Token::Number(NumberLiteral::Int(2_i32.pow(20)))]
        );

        assert_eq!(
            lex_from_str("1Gi").unwrap(),
            vec![Token::Number(NumberLiteral::Int(2_i32.pow(30)))]
        );
    }

    // both binary prefix and number type
    {
        assert_eq!(
            lex_from_str("1Ki@long").unwrap(),
            vec![Token::Number(NumberLiteral::Long(2_i64.pow(10)))]
        );

        assert_eq!(
            lex_from_str("1Mi@long").unwrap(),
            vec![Token::Number(NumberLiteral::Long(2_i64.pow(20)))]
        );

        assert_eq!(
            lex_from_str("1Gi@long").unwrap(),
            vec![Token::Number(NumberLiteral::Long(2_i64.pow(30)))]
        );

        assert_eq!(
            lex_from_str("1Ti@ulong").unwrap(),
            vec![Token::Number(NumberLiteral::ULong(2_u64.pow(40)))]
        );

        assert_eq!(
            lex_from_str("1Pi@ulong").unwrap(),
            vec![Token::Number(NumberLiteral::ULong(2_u64.pow(50)))]
        );

        assert_eq!(
            lex_from_str("1Ei@ulong").unwrap(),
            vec![Token::Number(NumberLiteral::ULong(2_u64.pow(60)))]
        );
    }

    // binary unit prefix alternative
    {
        assert_eq!(
            lex_from_str("1KB").unwrap(),
            vec![Token::Number(NumberLiteral::Int(2_i32.pow(10)))]
        );

        assert_eq!(
            lex_from_str("1MB").unwrap(),
            vec![Token::Number(NumberLiteral::Int(2_i32.pow(20)))]
        );

        assert_eq!(
            lex_from_str("1GB").unwrap(),
            vec![Token::Number(NumberLiteral::Int(2_i32.pow(30)))]
        );
    }

    // fraction metric prefix
    {
        assert_eq!(
            lex_from_str("1m").unwrap(),
            vec![Token::Number(NumberLiteral::Float(
                (1_f32 / 10_f32.powi(3)).to_bits()
            ))]
        );

        assert_eq!(
            lex_from_str("1u").unwrap(),
            vec![Token::Number(NumberLiteral::Float(
                (1_f32 / 10_f32.powi(6)).to_bits()
            ))]
        );

        assert_eq!(
            lex_from_str("1n").unwrap(),
            vec![Token::Number(NumberLiteral::Float(
                (1_f32 / 10_f32.powi(9)).to_bits()
            ))]
        );

        assert_eq!(
            lex_from_str("1p").unwrap(),
            vec![Token::Number(NumberLiteral::Float(
                (1_f32 / 10_f32.powi(12)).to_bits()
            ))]
        );

        assert_eq!(
            lex_from_str("1f").unwrap(),
            vec![Token::Number(NumberLiteral::Float(
                (1_f32 / 10_f32.powi(15)).to_bits()
            ))]
        );

        assert_eq!(
            lex_from_str("1a").unwrap(),
            vec![Token::Number(NumberLiteral::Float(
                (1_f32 / 10_f32.powi(18)).to_bits()
            ))]
        );
    }

    // both fraction metric prefix and number type
    {
        assert_eq!(
            lex_from_str("1m@float").unwrap(),
            vec![Token::Number(NumberLiteral::Float(0.001f32.to_bits()))]
        );

        assert_eq!(
            lex_from_str("1m@double").unwrap(),
            vec![Token::Number(NumberLiteral::Double(0.001f64.to_bits()))]
        );
    }

    // err: invalid unit prefix
    assert!(matches!(lex_from_str("1Z"), Err(AsonError::Message(_))));

    // err: out of range
    assert!(matches!(lex_from_str("8G"), Err(AsonError::Message(_))));

    // err: out of range
    assert!(matches!(lex_from_str("1T"), Err(AsonError::Message(_))));

    // err: out of range
    assert!(matches!(lex_from_str("1P"), Err(AsonError::Message(_))));

    // err: out of range
    assert!(matches!(lex_from_str("1E"), Err(AsonError::Message(_))));

    // err: invalid type
    assert!(matches!(
        lex_from_str("1K@short"),
        Err(AsonError::Message(_))
    ));

    // err: invalid type
    assert!(matches!(
        lex_from_str("1m@int"),
        Err(AsonError::Message(_))
    ));
}

#[test]
fn test_lex_hex_number() {
    assert_eq!(
        lex_from_str("0xabcd").unwrap(),
        vec![Token::Number(NumberLiteral::Int(0xabcd))]
    );

    assert_eq!(
        lex_from_str("-0xaabb").unwrap(),
        vec![Token::Minus, Token::Number(NumberLiteral::Int(0xaabb))]
    );

    assert_eq!(
        lex_from_str("+0xccdd").unwrap(),
        vec![Token::Plus, Token::Number(NumberLiteral::Int(0xccdd))]
    );

    // err: overflow
    assert!(matches!(
        lex_from_str("0x8000_0000"),
        Err(AsonError::Message(_))
    ));

    // err: invalid char for hex number
    assert!(matches!(
        lex_from_str("0x1234xyz"),
        Err(AsonError::Message(_))
    ));

    // err: incomplete hex number
    assert!(matches!(lex_from_str("0x"), Err(AsonError::Message(_))));
}

#[test]
fn test_lex_hex_number_with_explicit_type() {
    assert_eq!(
        lex_from_str("0x7f@byte").unwrap(),
        vec![Token::Number(NumberLiteral::Byte(0x7f_i8))]
    );

    assert_eq!(
        lex_from_str("0xff@ubyte").unwrap(),
        vec![Token::Number(NumberLiteral::UByte(0xff_u8))]
    );

    // err: signed overflow
    assert!(matches!(
        lex_from_str("0x80@byte"),
        Err(AsonError::Message(_))
    ));

    // err: unsigned overflow
    assert!(matches!(
        lex_from_str("0x1_ff@ubyte"),
        Err(AsonError::Message(_))
    ));

    assert_eq!(
        lex_from_str("0x7fff@short").unwrap(),
        vec![Token::Number(NumberLiteral::Short(0x7fff_i16))]
    );

    assert_eq!(
        lex_from_str("0xffff@ushort").unwrap(),
        vec![Token::Number(NumberLiteral::UShort(0xffff_u16))]
    );

    // err: signed overflow
    assert!(matches!(
        lex_from_str("0x8000@short"),
        Err(AsonError::Message(_))
    ));

    // err: unsigned overflow
    assert!(matches!(
        lex_from_str("0x1_ffff@ushort"),
        Err(AsonError::Message(_))
    ));

    assert_eq!(
        lex_from_str("0x7fff_ffff@int").unwrap(),
        vec![Token::Number(NumberLiteral::Int(0x7fff_ffff_i32))]
    );

    assert_eq!(
        lex_from_str("0xffff_ffff@uint").unwrap(),
        vec![Token::Number(NumberLiteral::UInt(0xffff_ffff_u32))]
    );

    // err: signed overflow
    assert!(matches!(
        lex_from_str("0x8000_0000@int"),
        Err(AsonError::Message(_))
    ));

    // err: unsigned overflow
    assert!(matches!(
        lex_from_str("0x1_ffff_ffff@uint"),
        Err(AsonError::Message(_))
    ));

    assert_eq!(
        lex_from_str("0x7fff_ffff_ffff_ffff@long").unwrap(),
        vec![Token::Number(NumberLiteral::Long(0x7fff_ffff_ffff_ffff_i64))]
    );

    assert_eq!(
        lex_from_str("0xffff_ffff_ffff_ffff@ulong").unwrap(),
        vec![Token::Number(NumberLiteral::ULong(0xffff_ffff_ffff_ffff_u64))]
    );

    // err: signed overflow
    assert!(matches!(
        lex_from_str("0x8000_0000_0000_0000@long"),
        Err(AsonError::Message(_))
    ));

    // err: unsigned overflow
    assert!(matches!(
        lex_from_str("0x1_ffff_ffff_ffff_ffff@ulong"),
        Err(AsonError::Message(_))
    ));

    // err: hex numbers do not take the float type
    assert!(matches!(
        lex_from_str("0xaa@float"),
        Err(AsonError::Message(_))
    ));

    // err: hex numbers do not take the double type
    assert!(matches!(
        lex_from_str("0xaa@double"),
        Err(AsonError::Message(_))
    ));
}

#[test]
fn test_lex_binary_number() {
    assert_eq!(
        lex_from_str("0b1100").unwrap(),
        vec![Token::Number(NumberLiteral::Int(0b1100))]
    );

    assert_eq!(
        lex_from_str("-0b1010").unwrap(),
        vec![Token::Minus, Token::Number(NumberLiteral::Int(0b1010))]
    );

    assert_eq!(
        lex_from_str("+0b0101").unwrap(),
        vec![Token::Plus, Token::Number(NumberLiteral::Int(0b0101))]
    );

    // err: binary numbers have no float form
    assert!(matches!(
        lex_from_str("0b11.1"),
        Err(AsonError::Message(_))
    ));

    // err: overflow
    assert!(matches!(
        lex_from_str("0b1_0000_0000_0000_0000_0000_0000_0000_0000"),
        Err(AsonError::Message(_))
    ));

    // err: invalid char for binary number
    assert!(matches!(
        lex_from_str("0b10xyz"),
        Err(AsonError::Message(_))
    ));

    // err: incomplete binary number
    assert!(matches!(lex_from_str("0b"), Err(AsonError::Message(_))));
}

#[test]
fn test_lex_binary_number_with_explicit_type() {
    assert_eq!(
        lex_from_str("0b0111_1111@byte").unwrap(),
        vec![Token::Number(NumberLiteral::Byte(0x7f_i8))]
    );

    assert_eq!(
        lex_from_str("0b1111_1111@ubyte").unwrap(),
        vec![Token::Number(NumberLiteral::UByte(0xff_u8))]
    );

    // err: signed overflow
    assert!(matches!(
        lex_from_str("0b1000_0000@byte"),
        Err(AsonError::Message(_))
    ));

    // err: unsigned overflow
    assert!(matches!(
        lex_from_str("0b1_1111_1111@ubyte"),
        Err(AsonError::Message(_))
    ));

    assert_eq!(
        lex_from_str("0b0111_1111_1111_1111@short").unwrap(),
        vec![Token::Number(NumberLiteral::Short(0x7fff_i16))]
    );

    assert_eq!(
        lex_from_str("0b1111_1111_1111_1111@ushort").unwrap(),
        vec![Token::Number(NumberLiteral::UShort(0xffff_u16))]
    );

    // err: signed overflow
    assert!(matches!(
        lex_from_str("0b1000_0000_0000_0000@short"),
        Err(AsonError::Message(_))
    ));

    // err: unsigned overflow
    assert!(matches!(
        lex_from_str("0b1_1111_1111_1111_1111@ushort"),
        Err(AsonError::Message(_))
    ));

    assert_eq!(
        lex_from_str("0b0111_1111_1111_1111__1111_1111_1111_1111@int").unwrap(),
        vec![Token::Number(NumberLiteral::Int(0x7fff_ffff_i32))]
    );

    assert_eq!(
        lex_from_str("0b1111_1111_1111_1111__1111_1111_1111_1111@uint").unwrap(),
        vec![Token::Number(NumberLiteral::UInt(0xffff_ffff_u32))]
    );

    // err: signed overflow
    assert!(matches!(
        lex_from_str("0b1000_0000_0000_0000__0000_0000_0000_0000@int"),
        Err(AsonError::Message(_))
    ));

    // err: unsigned overflow
    assert!(matches!(
        lex_from_str("0b1_1111_1111_1111_1111__1111_1111_1111_1111@uint"),
        Err(AsonError::Message(_))
    ));

    assert_eq!(
        lex_from_str("0b0111_1111_1111_1111__1111_1111_1111_1111__1111_1111_1111_1111__1111_1111_1111_1111@long").unwrap(),
        vec![Token::Number(NumberLiteral::Long(0x7fff_ffff_ffff_ffff_i64))]
    );

    assert_eq!(
        lex_from_str("0b1111_1111_1111_1111__1111_1111_1111_1111__1111_1111_1111_1111__1111_1111_1111_1111@ulong").unwrap(),
        vec![Token::Number(NumberLiteral::ULong(0xffff_ffff_ffff_ffff_u64))]
    );

    // err: overflow
    assert!(matches!(
        lex_from_str("0b1000_0000_0000_0000__0000_0000_0000_0000__0000_0000_0000_0000__0000_0000_0000_0000@long"),
        Err(AsonError::Message(_))
    ));

    // err: unsigned overflow
    assert!(matches!(
        lex_from_str("0b1_1111_1111_1111_1111__1111_1111_1111_1111__1111_1111_1111_1111__1111_1111_1111_1111@ulong"),
        Err(AsonError::Message(_))
    ));

    // err: binary numbers do not take the float type
    assert!(matches!(
        lex_from_str("0b11@float"),
        Err(AsonError::Message(_))
    ));

    // err: binary numbers do not take the double type
    assert!(matches!(
        lex_from_str("0b11@double"),
        Err(AsonError::Message(_))
    ));
}

#[test]
fn test_lex_hex_floating_point_number() {
    // 3.1415927f32
    assert_eq!(
        lex_from_str("0x1.921fb6p1").unwrap(),
        vec![Token::Number(NumberLiteral::Float(
            std::f32::consts::PI.to_bits()
        ))]
    );

    // 2.718281828459045f64
    assert_eq!(
        lex_from_str("0x1.5bf0a8b145769p+1@double").unwrap(),
        vec![Token::Number(NumberLiteral::Double(
            std::f64::consts::E.to_bits()
        ))]
    );

    assert_eq!(
        lex_from_str("0x1.62e42fefa39efp-1@double").unwrap(),
        vec![Token::Number(NumberLiteral::Double(
            std::f64::consts::LN_2.to_bits()
        ))]
    );

    // err: incorrect number type
    assert!(matches!(
        lex_from_str("0x1.23p4@int"),
        Err(AsonError::Message(_))
    ));
}

#[test]
fn test_lex_hex_floating_point_exponent_range() {
    // values around the subnormal edge still read
    assert_eq!(
        lex_from_str("0x1.0p-149").unwrap(),
        vec![Token::Number(NumberLiteral::Float(1e-45f32.to_bits()))]
    );

    assert_eq!(
        lex_from_str("0x1.0p-1074@double").unwrap(),
        vec![Token::Number(NumberLiteral::Double(5e-324f64.to_bits()))]
    );

    // err: a binary exponent far below the representable range
    assert!(matches!(
        lex_from_str("0x1.0p-500"),
        Err(AsonError::Message(_))
    ));

    // err: a binary exponent far above the representable range
    assert!(matches!(
        lex_from_str("0x1.0p2147483640"),
        Err(AsonError::Message(_))
    ));

    // err: an absurdly long written exponent
    assert!(matches!(
        lex_from_str("0x1.0p99999999999999999999"),
        Err(AsonError::Message(_))
    ));

    // err: deep negative exponents at double precision too
    assert!(matches!(
        lex_from_str("0x1.0p-2000@double"),
        Err(AsonError::Message(_))
    ));
}
