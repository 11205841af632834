//! The trusted boundary: every call into an outside crate or into a part of
//! std that vstd gives no specification for lives here, one small wrapper
//! per outside function.
//!
//! Floating-point values never cross this boundary as such: each wrapper
//! takes and returns IEEE 754 bit patterns, and the machine types are
//! reached through hexfloat2's `HexFloat32`/`HexFloat64` wrappers. Results
//! that are functions of the arguments alone but take pages to state
//! (decimal-to-binary rounding, hexadecimal float parsing, RFC 3339
//! parsing) are given names: uninterpreted spec functions that the
//! wrappers' contracts apply, so that callers' contracts stay exact.
use vstd::prelude::*;

verus! {

/// The scalar value that `char::from_u32` yields for a code point, when it
/// yields one: exactly the non-surrogate code points up to U+10FFFF.
///
/// Relies on char::from_u32: `Some` exactly for Unicode scalar values.
#[verifier::external_body]
pub fn char_from_u32(v: u32) -> (r: Option<char>)
    ensures
        r is Some <==> vstd::utf8::is_scalar(v),
        match r {
            Some(c) => c as u32 == v,
            None => true,
        },
{
    char::from_u32(v)
}

/// Whether a scalar value has the Unicode `White_Space` property.
pub uninterp spec fn ws_of(c: char) -> bool;

/// Relies on char::is_whitespace: true exactly for `White_Space` scalar
/// values, among them space, tab, line feed and carriage return.
#[verifier::external_body]
pub fn is_whitespace_char(c: char) -> (r: bool)
    ensures
        r == ws_of(c),
        c == ' ' || c == '\t' || c == '\n' || c == '\r' ==> r,
{
    c.is_whitespace()
}

/// The single-precision bits that `str::parse` yields for a text, when it
/// accepts the text.
pub uninterp spec fn decf32_of(s: Seq<char>) -> Option<u32>;

/// Relies on str::parse into the 32-bit IEEE 754 type (correctly rounded
/// decimal conversion); the result depends on the characters alone.
#[verifier::external_body]
pub fn parse_dec_f32(s: &Vec<char>) -> (r: Option<u32>)
    ensures
        r == decf32_of(s@),
{
    let text: String = s.iter().collect();
    let parsed: Result<<hexfloat2::HexFloat32 as core::ops::Deref>::Target, _> = text.parse();
    parsed.ok().map(|v| v.to_bits())
}

/// The double-precision bits that `str::parse` yields for a text, when it
/// accepts the text.
pub uninterp spec fn decf64_of(s: Seq<char>) -> Option<u64>;

/// Relies on str::parse into the 64-bit IEEE 754 type (correctly rounded
/// decimal conversion); the result depends on the characters alone.
#[verifier::external_body]
pub fn parse_dec_f64(s: &Vec<char>) -> (r: Option<u64>)
    ensures
        r == decf64_of(s@),
{
    let text: String = s.iter().collect();
    let parsed: Result<<hexfloat2::HexFloat64 as core::ops::Deref>::Target, _> = text.parse();
    parsed.ok().map(|v| v.to_bits())
}

/// The single-precision bits that hexfloat2 yields for a hexadecimal float
/// text such as `0x1.921fb6p1`, when it accepts the text.
pub uninterp spec fn hexf32_of(s: Seq<char>) -> Option<u32>;

/// Relies on hexfloat2's `FromStr` for `HexFloat32`; the result depends on
/// the characters alone. The precondition keeps the text inside the domain
/// where that parser's exponent arithmetic stays within 32 bits, so the
/// call cannot panic (see `spec_hexfloat_arith_safe`).
#[verifier::external_body]
pub fn parse_hex_f32(s: &Vec<char>) -> (r: Option<u32>)
    requires
        crate::numbers::spec_hexfloat_arith_safe(s@, 127),
    ensures
        r == hexf32_of(s@),
{
    let text: String = s.iter().collect();
    text.parse::<hexfloat2::HexFloat32>().ok().map(|v| v.0.to_bits())
}

/// The double-precision bits that hexfloat2 yields for a hexadecimal float
/// text, when it accepts the text.
pub uninterp spec fn hexf64_of(s: Seq<char>) -> Option<u64>;

/// Relies on hexfloat2's `FromStr` for `HexFloat64`; the result depends on
/// the characters alone. The precondition keeps the text inside the domain
/// where that parser's exponent arithmetic stays within 32 bits, so the
/// call cannot panic (see `spec_hexfloat_arith_safe`).
#[verifier::external_body]
pub fn parse_hex_f64(s: &Vec<char>) -> (r: Option<u64>)
    requires
        crate::numbers::spec_hexfloat_arith_safe(s@, 1023),
    ensures
        r == hexf64_of(s@),
{
    let text: String = s.iter().collect();
    text.parse::<hexfloat2::HexFloat64>().ok().map(|v| v.0.to_bits())
}

/// The single-precision bits of the IEEE 754 quotient of two values given
/// by their bits.
pub uninterp spec fn f32_div_of(a: u32, b: u32) -> u32;

/// Relies on IEEE 754 single-precision division (core's `Div`), which is
/// correctly rounded and so depends on the operands alone whenever the
/// quotient is not NaN; the preconditions (a non-NaN dividend, a positive
/// finite non-zero divisor) make a NaN quotient impossible.
#[verifier::external_body]
pub fn f32_div(a: u32, b: u32) -> (r: u32)
    requires
        !crate::token::spec_f32_is_nan(a),
        0 < b < 0x7f80_0000,
    ensures
        r == f32_div_of(a, b),
{
    let x = <<hexfloat2::HexFloat32 as core::ops::Deref>::Target>::from_bits(a);
    let y = <<hexfloat2::HexFloat32 as core::ops::Deref>::Target>::from_bits(b);
    (x / y).to_bits()
}

/// The double-precision bits of the IEEE 754 quotient of a double-precision
/// value and a widened single-precision value, each given by its bits.
pub uninterp spec fn f64_div_f32_of(a: u64, b: u32) -> u64;

/// Relies on IEEE 754 double-precision division (core's `Div`), with the
/// divisor widened from single precision (a lossless conversion); the
/// division is correctly rounded and so depends on the operands alone
/// whenever the quotient is not NaN, and the preconditions (a non-NaN
/// dividend, a positive finite non-zero divisor) make a NaN quotient
/// impossible.
#[verifier::external_body]
pub fn f64_div_by_f32(a: u64, b: u32) -> (r: u64)
    requires
        !crate::token::spec_f64_is_nan(a),
        0 < b < 0x7f80_0000,
    ensures
        r == f64_div_f32_of(a, b),
{
    let x = <<hexfloat2::HexFloat64 as core::ops::Deref>::Target>::from_bits(a);
    let y = <<hexfloat2::HexFloat32 as core::ops::Deref>::Target>::from_bits(b);
    let wide: <hexfloat2::HexFloat64 as core::ops::Deref>::Target = y.into();
    (x / wide).to_bits()
}

/// The moment that chrono reads from an RFC 3339 date-time text, when it
/// accepts the text: seconds since the Unix epoch, and the local offset
/// from UTC in seconds.
pub uninterp spec fn rfc3339_of(s: Seq<char>) -> Option<(i64, i32)>;

/// Relies on chrono's DateTime::parse_from_rfc3339; the result depends on
/// the characters alone.
#[verifier::external_body]
pub fn parse_rfc3339(s: &Vec<char>) -> (r: Option<(i64, i32)>)
    ensures
        r == rfc3339_of(s@),
{
    let text: String = s.iter().collect();
    chrono::DateTime::parse_from_rfc3339(&text)
        .ok()
        .map(|d| (d.timestamp(), d.offset().local_minus_utc()))
}

} // verus!
