//! The token data model: the closed set of lexical units that the tokenizer
//! emits, and the number-literal union of exact widths.
//!
//! Floating-point values are carried as their IEEE 754 bit patterns (`u32`
//! for single precision, `u64` for double precision), so that every rule on
//! them - sign, infinity, NaN - is plain integer logic.
use vstd::prelude::*;

verus! {

/// A number literal tagged with its exact width; width and signedness are
/// semantic. `Float` and `Double` hold IEEE 754 bit patterns.
#[derive(Debug, Clone, PartialEq)]
pub enum NumberLiteral {
    Byte(i8),
    UByte(u8),
    Short(i16),
    UShort(u16),
    Int(i32),
    UInt(u32),
    Long(i64),
    ULong(u64),
    Float(u32),
    Double(u64),
}

/// The named number types a literal's `@` suffix may select, normalized:
/// the fixed-width spellings (`i8`, `f64`, ...) map onto these.
#[derive(Debug, Clone, Copy, PartialEq, Eq, Structural)]
pub enum NumType {
    Byte,
    UByte,
    Short,
    UShort,
    Int,
    UInt,
    Long,
    ULong,
    Float,
    Double,
}

/// A fixed-offset calendar moment, as plain values: seconds since the Unix
/// epoch together with the local offset from UTC in seconds.
#[derive(Debug, Clone, PartialEq)]
pub struct DateMoment {
    pub seconds: i64,
    pub offset_seconds: i32,
}

/// A comment token; the sanitizer removes all of these.
#[derive(Debug, Clone, PartialEq)]
pub enum CommentToken {
    Line(Vec<char>),
    Block(Vec<char>),
    Document(Vec<char>),
}

/// One lexical unit. Texts are carried as sequences of Unicode scalar
/// values.
#[derive(Debug, Clone, PartialEq)]
pub enum Token {
    LeftBrace,
    RightBrace,
    LeftBracket,
    RightBracket,
    LeftParen,
    RightParen,
    /// One line break, whether the source wrote `\n`, `\r\n` or `\r`.
    NewLine,
    Comma,
    Colon,
    Plus,
    Minus,
    Identifier(Vec<char>),
    Boolean(bool),
    /// A qualified variant name, e.g. `Option::None`.
    Variant(Vec<char>),
    Number(NumberLiteral),
    Char(char),
    String_(Vec<char>),
    Date(DateMoment),
    ByteData(Vec<u8>),
    Comment(CommentToken),
}

/// The mathematical model of a comment token: its text as a sequence.
pub enum CommentTokenView {
    Line(Seq<char>),
    Block(Seq<char>),
    Document(Seq<char>),
}

/// The mathematical model of a token: every carried text is a sequence of
/// scalar values, every byte string a sequence of bytes.
pub enum TokenView {
    LeftBrace,
    RightBrace,
    LeftBracket,
    RightBracket,
    LeftParen,
    RightParen,
    NewLine,
    Comma,
    Colon,
    Plus,
    Minus,
    Identifier(Seq<char>),
    Boolean(bool),
    Variant(Seq<char>),
    Number(NumberLiteral),
    Char(char),
    String_(Seq<char>),
    Date(DateMoment),
    ByteData(Seq<u8>),
    Comment(CommentTokenView),
}

impl View for CommentToken {
    type V = CommentTokenView;

    open spec fn view(&self) -> CommentTokenView {
        match self {
            CommentToken::Line(t) => CommentTokenView::Line(t@),
            CommentToken::Block(t) => CommentTokenView::Block(t@),
            CommentToken::Document(t) => CommentTokenView::Document(t@),
        }
    }
}

impl View for Token {
    type V = TokenView;

    open spec fn view(&self) -> TokenView {
        match self {
            Token::LeftBrace => TokenView::LeftBrace,
            Token::RightBrace => TokenView::RightBrace,
            Token::LeftBracket => TokenView::LeftBracket,
            Token::RightBracket => TokenView::RightBracket,
            Token::LeftParen => TokenView::LeftParen,
            Token::RightParen => TokenView::RightParen,
            Token::NewLine => TokenView::NewLine,
            Token::Comma => TokenView::Comma,
            Token::Colon => TokenView::Colon,
            Token::Plus => TokenView::Plus,
            Token::Minus => TokenView::Minus,
            Token::Identifier(t) => TokenView::Identifier(t@),
            Token::Boolean(b) => TokenView::Boolean(*b),
            Token::Variant(t) => TokenView::Variant(t@),
            Token::Number(n) => TokenView::Number(*n),
            Token::Char(c) => TokenView::Char(*c),
            Token::String_(t) => TokenView::String_(t@),
            Token::Date(d) => TokenView::Date(*d),
            Token::ByteData(b) => TokenView::ByteData(b@),
            Token::Comment(c) => TokenView::Comment(c@),
        }
    }
}

/// The models of a token sequence, token by token.
pub open spec fn token_views(tokens: Seq<Token>) -> Seq<TokenView> {
    tokens.map_values(|t: Token| t@)
}

/// Bits of IEEE 754 single-precision positive infinity.
pub const F32_INFINITY_BITS: u32 = 0x7f80_0000;

/// Bits of the IEEE 754 single-precision quiet NaN that `Inf`/`NaN`
/// keywords produce.
pub const F32_NAN_BITS: u32 = 0x7fc0_0000;

/// Bits of IEEE 754 double-precision positive infinity.
pub const F64_INFINITY_BITS: u64 = 0x7ff0_0000_0000_0000;

/// Bits of the IEEE 754 double-precision quiet NaN that `Inf`/`NaN`
/// keywords produce.
pub const F64_NAN_BITS: u64 = 0x7ff8_0000_0000_0000;

/// The single-precision bit pattern with the sign bit cleared.
pub open spec fn spec_f32_abs_bits(bits: u32) -> u32 {
    if bits >= 0x8000_0000 {
        (bits - 0x8000_0000) as u32
    } else {
        bits
    }
}

/// A single-precision bit pattern denotes NaN when its exponent field is
/// all ones and its significand is not zero.
pub open spec fn spec_f32_is_nan(bits: u32) -> bool {
    spec_f32_abs_bits(bits) > 0x7f80_0000
}

/// A single-precision bit pattern denotes an infinity when its exponent
/// field is all ones and its significand is zero.
pub open spec fn spec_f32_is_infinite(bits: u32) -> bool {
    spec_f32_abs_bits(bits) == 0x7f80_0000
}

/// IEEE 754 negation of a single-precision value: the sign bit flips.
pub open spec fn spec_f32_neg(bits: u32) -> u32 {
    if bits >= 0x8000_0000 {
        (bits - 0x8000_0000) as u32
    } else {
        (bits + 0x8000_0000) as u32
    }
}

/// The double-precision bit pattern with the sign bit cleared.
pub open spec fn spec_f64_abs_bits(bits: u64) -> u64 {
    if bits >= 0x8000_0000_0000_0000 {
        (bits - 0x8000_0000_0000_0000) as u64
    } else {
        bits
    }
}

/// A double-precision bit pattern denotes NaN when its exponent field is
/// all ones and its significand is not zero.
pub open spec fn spec_f64_is_nan(bits: u64) -> bool {
    spec_f64_abs_bits(bits) > 0x7ff0_0000_0000_0000
}

/// A double-precision bit pattern denotes an infinity when its exponent
/// field is all ones and its significand is zero.
pub open spec fn spec_f64_is_infinite(bits: u64) -> bool {
    spec_f64_abs_bits(bits) == 0x7ff0_0000_0000_0000
}

/// IEEE 754 negation of a double-precision value: the sign bit flips.
pub open spec fn spec_f64_neg(bits: u64) -> u64 {
    if bits >= 0x8000_0000_0000_0000 {
        (bits - 0x8000_0000_0000_0000) as u64
    } else {
        (bits + 0x8000_0000_0000_0000) as u64
    }
}

/// Decides whether a single-precision bit pattern denotes NaN.
pub fn f32_bits_is_nan(bits: u32) -> (r: bool)
    ensures
        r == spec_f32_is_nan(bits),
{
    let abs: u32 = if bits >= 0x8000_0000 {
        bits - 0x8000_0000
    } else {
        bits
    };
    abs > 0x7f80_0000
}

/// Decides whether a single-precision bit pattern denotes an infinity.
pub fn f32_bits_is_infinite(bits: u32) -> (r: bool)
    ensures
        r == spec_f32_is_infinite(bits),
{
    let abs: u32 = if bits >= 0x8000_0000 {
        bits - 0x8000_0000
    } else {
        bits
    };
    abs == 0x7f80_0000
}

/// Negates a single-precision value by flipping its sign bit.
pub fn f32_bits_neg(bits: u32) -> (r: u32)
    ensures
        r == spec_f32_neg(bits),
{
    if bits >= 0x8000_0000 {
        bits - 0x8000_0000
    } else {
        bits + 0x8000_0000
    }
}

/// Decides whether a double-precision bit pattern denotes NaN.
pub fn f64_bits_is_nan(bits: u64) -> (r: bool)
    ensures
        r == spec_f64_is_nan(bits),
{
    let abs: u64 = if bits >= 0x8000_0000_0000_0000 {
        bits - 0x8000_0000_0000_0000
    } else {
        bits
    };
    abs > 0x7ff0_0000_0000_0000
}

/// Decides whether a double-precision bit pattern denotes an infinity.
pub fn f64_bits_is_infinite(bits: u64) -> (r: bool)
    ensures
        r == spec_f64_is_infinite(bits),
{
    let abs: u64 = if bits >= 0x8000_0000_0000_0000 {
        bits - 0x8000_0000_0000_0000
    } else {
        bits
    };
    abs == 0x7ff0_0000_0000_0000
}

/// Negates a double-precision value by flipping its sign bit.
pub fn f64_bits_neg(bits: u64) -> (r: u64)
    ensures
        r == spec_f64_neg(bits),
{
    if bits >= 0x8000_0000_0000_0000 {
        bits - 0x8000_0000_0000_0000
    } else {
        bits + 0x8000_0000_0000_0000
    }
}

} // verus!
