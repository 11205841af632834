//! A plain companion printer lives here so that the round-trip behaviour of
//! the library can be exercised: printing a parsed document and parsing the
//! printed text again yields a structurally equal tree.
use ason::ast::{AsonNode, VariantPayload};
use ason::cursor::Cursor;
use ason::lexer::lex;
use ason::parser::parse;
use ason::sanitizer::sanitize;
use ason::token::{NumberLiteral, Token};
use ason::AsonError;

fn parse_from_str(s: &str) -> Result<AsonNode, AsonError> {
    let mut chars_iter = Cursor::new(s.chars().collect());
    let tokens: Vec<Token> = lex(&mut chars_iter)?;
    let effective = sanitize(tokens)?;
    let mut token_iter = Cursor::new(effective);
    parse(&mut token_iter)
}

fn escape_text(cs: &[char]) -> String {
    let mut out = String::new();
    for &c in cs {
        match c {
            '\\' => out.push_str("\\\\"),
            '"' => out.push_str("\\\""),
            '\n' => out.push_str("\\n"),
            '\r' => out.push_str("\\r"),
            '\t' => out.push_str("\\t"),
            '\0' => out.push_str("\\0"),
            _ => out.push(c),
        }
    }
    out
}

fn print_f32(v: f32) -> String {
    if v.is_infinite() {
        if v > 0.0 {
            "Inf".to_owned()
        } else {
            "-Inf".to_owned()
        }
    } else {
        format!("{:?}", v)
    }
}

fn print_f64(v: f64) -> String {
    if v.is_infinite() {
        if v > 0.0 {
            "Inf@double".to_owned()
        } else {
            "-Inf@double".to_owned()
        }
    } else {
        format!("{:?}@double", v)
    }
}

fn print_number(n: &NumberLiteral) -> String {
    match n {
        NumberLiteral::Byte(v) => format!("{}@byte", v),
        NumberLiteral::UByte(v) => format!("{}@ubyte", v),
        NumberLiteral::Short(v) => format!("{}@short", v),
        NumberLiteral::UShort(v) => format!("{}@ushort", v),
        NumberLiteral::Int(v) => format!("{}", v),
        NumberLiteral::UInt(v) => format!("{}@uint", v),
        NumberLiteral::Long(v) => format!("{}@long", v),
        NumberLiteral::ULong(v) => format!("{}@ulong", v),
        NumberLiteral::Float(b) => print_f32(f32::from_bits(*b)),
        NumberLiteral::Double(b) => print_f64(f64::from_bits(*b)),
    }
}

fn print_node(node: &AsonNode) -> String {
    match node {
        AsonNode::Number(n) => print_number(n),
        AsonNode::Boolean(true) => "true".to_owned(),
        AsonNode::Boolean(false) => "false".to_owned(),
        AsonNode::Char(c) => match c {
            '\\' => "'\\\\'".to_owned(),
            '\'' => "'\\''".to_owned(),
            '\n' => "'\\n'".to_owned(),
            '\r' => "'\\r'".to_owned(),
            '\t' => "'\\t'".to_owned(),
            '\0' => "'\\0'".to_owned(),
            _ => format!("'{}'", c),
        },
        AsonNode::String_(cs) => format!("\"{}\"", escape_text(cs)),
        AsonNode::Date(d) => {
            let offset = chrono::FixedOffset::east_opt(d.offset_seconds).unwrap();
            let moment = chrono::DateTime::from_timestamp(d.seconds, 0)
                .unwrap()
                .with_timezone(&offset);
            format!("d\"{}\"", moment.to_rfc3339())
        }
        AsonNode::ByteData(bytes) => {
            let mut out = String::from("h\"");
            for b in bytes {
                out.push_str(&format!("{:02x}", b));
            }
            out.push('"');
            out
        }
        AsonNode::List(items) => {
            let texts: Vec<String> = items.iter().map(print_node).collect();
            format!("[{}]", texts.join(","))
        }
        AsonNode::Tuple(items) => {
            let texts: Vec<String> = items.iter().map(print_node).collect();
            format!("({})", texts.join(","))
        }
        AsonNode::Object(pairs) => {
            let texts: Vec<String> = pairs
                .iter()
                .map(|p| {
                    format!(
                        "{}: {}",
                        p.key.iter().collect::<String>(),
                        print_node(&p.value)
                    )
                })
                .collect();
            format!("{{{}}}", texts.join(","))
        }
        AsonNode::Variant(ty, member, payload) => {
            let name = format!(
                "{}::{}",
                ty.iter().collect::<String>(),
                member.iter().collect::<String>()
            );
            match payload {
                VariantPayload::Empty => name,
                VariantPayload::Single(v) => format!("{}({})", name, print_node(v)),
                VariantPayload::Multiple(items) => {
                    let texts: Vec<String> = items.iter().map(print_node).collect();
                    format!("{}({})", name, texts.join(","))
                }
                VariantPayload::Object(pairs) => {
                    let texts: Vec<String> = pairs
                        .iter()
                        .map(|p| {
                            format!(
                                "{}: {}",
                                p.key.iter().collect::<String>(),
                                print_node(&p.value)
                            )
                        })
                        .collect();
                    format!("{}{{{}}}", name, texts.join(","))
                }
            }
        }
    }
}

fn assert_round_trip(text: &str) {
    let first = parse_from_str(text).unwrap();
    let printed = print_node(&first);
    let second = parse_from_str(&printed).unwrap();
    assert_eq!(first, second, "printed form: {}", printed);
}

#[test]
fn test_print_parse_round_trip() {
    assert_round_trip("123");
    assert_round_trip("-2017");
    assert_round_trip("3.14");
    assert_round_trip("-6.626e-34");
    assert_round_trip("1.797e308@double");
    assert_round_trip("255@ubyte");
    assert_round_trip("-32767@short");
    assert_round_trip("9_223_372_036_854_775_807@long");
    assert_round_trip("Inf");
    assert_round_trip("true");
    assert_round_trip("'文'");
    assert_round_trip("\"a \\\"quoted\\\" line\\nand a tab\\t\"");
    assert_round_trip("h\"11131719\"");
    assert_round_trip("d\"2024-03-16T16:30:50+08:00\"");
    assert_round_trip("d\"2024-03-16 16:30:50\"");
    assert_round_trip("[1, 2, 3]");
    assert_round_trip("[]");
    assert_round_trip("(1, \"two\", 't')");
    assert_round_trip("Option::None");
    assert_round_trip("Option::Some(123)");
    assert_round_trip("Shape::Rect{w: 3, h: 4}");
    assert_round_trip(
        r#"
        {
            id: 123
            name: "John"
            orders: [11, 13]
            meta: {
                active: true
                scores: (0.5, -2, Color::Of(255@ubyte))
            }
        }
        "#,
    );
}

#[test]
fn test_date_moment_values() {
    // the moment carries seconds since the epoch and the written offset
    let node = parse_from_str("d\"2024-03-16T16:30:50Z\"").unwrap();
    match node {
        AsonNode::Date(d) => {
            assert_eq!(d.seconds, 1710606650);
            assert_eq!(d.offset_seconds, 0);
        }
        _ => panic!("expected a date"),
    }

    let node = parse_from_str("d\"2024-03-16T16:30:50+08:00\"").unwrap();
    match node {
        AsonNode::Date(d) => {
            assert_eq!(d.seconds, 1710606650 - 8 * 3600);
            assert_eq!(d.offset_seconds, 28800);
        }
        _ => panic!("expected a date"),
    }
}
