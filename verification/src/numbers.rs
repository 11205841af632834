//! The numeric rules of the grammar: digit values, radix accumulation with
//! exact overflow conditions, the width table that an `@` suffix selects,
//! and the unit-prefix scale table.
//!
//! Everything here is plain integer logic with exact contracts; the only
//! outside help is the named decimal-to-binary rounding of `foreign`.
use vstd::prelude::*;

use crate::foreign::{
    decf32_of, decf64_of, f32_div_of, f64_div_f32_of, hexf32_of, hexf64_of, parse_dec_f32,
    parse_dec_f64, f32_div, f64_div_by_f32,
};
use crate::token::{NumType, NumberLiteral, spec_f32_is_infinite, spec_f32_is_nan, spec_f64_is_infinite, spec_f64_is_nan};
use crate::token::{f32_bits_is_infinite, f32_bits_is_nan, f64_bits_is_infinite, f64_bits_is_nan};
use crate::AsonError;

verus! {

/// Whether a scalar value is a digit of the given radix (2, 10 or 16).
pub open spec fn is_radix_digit(c: char, radix: u32) -> bool {
    if radix == 2 {
        c == '0' || c == '1'
    } else if radix == 10 {
        48 <= c as u32 && c as u32 <= 57
    } else {
        (48 <= c as u32 && c as u32 <= 57) || (97 <= c as u32 && c as u32 <= 102) || (65 <= c as u32
            && c as u32 <= 70)
    }
}

/// The numeric value of a digit: `0`-`9`, then `a`-`f` and `A`-`F` as ten
/// to fifteen.
pub open spec fn digit_val(c: char) -> int {
    if 48 <= c as u32 && c as u32 <= 57 {
        c as u32 - 48
    } else if 97 <= c as u32 && c as u32 <= 102 {
        c as u32 - 87
    } else if 65 <= c as u32 && c as u32 <= 70 {
        c as u32 - 55
    } else {
        0
    }
}

pub open spec fn all_radix_digits(s: Seq<char>, radix: u32) -> bool {
    forall|i: int| 0 <= i < s.len() ==> is_radix_digit(#[trigger] s[i], radix)
}

/// The non-negative integer that a digit sequence denotes in the given
/// radix.
pub open spec fn radix_val(s: Seq<char>, radix: u32) -> int
    decreases s.len(),
{
    if s.len() == 0 {
        0
    } else {
        radix_val(s.drop_last(), radix) * radix + digit_val(s.last())
    }
}

pub proof fn lemma_radix_val_nonneg(s: Seq<char>, radix: u32)
    ensures
        radix_val(s, radix) >= 0,
    decreases s.len(),
{
    if s.len() > 0 {
        lemma_radix_val_nonneg(s.drop_last(), radix);
        assert(radix_val(s.drop_last(), radix) * radix >= 0) by (nonlinear_arith)
            requires
                radix_val(s.drop_last(), radix) >= 0,
        ;
        assert(digit_val(s.last()) >= 0);
    }
}

/// A digit sequence denotes at least what any of its prefixes denotes.
pub proof fn lemma_radix_val_prefix_le(s: Seq<char>, radix: u32, j: int)
    requires
        2 <= radix,
        0 <= j <= s.len(),
    ensures
        radix_val(s.take(j), radix) <= radix_val(s, radix),
    decreases s.len() - j,
{
    if j == s.len() {
        assert(s.take(j) =~= s);
    } else {
        lemma_radix_val_prefix_le(s, radix, j + 1);
        assert(s.take(j + 1).drop_last() =~= s.take(j));
        assert(s.take(j + 1).last() == s[j]);
        lemma_radix_val_nonneg(s.take(j), radix);
        assert(radix_val(s.take(j), radix) * radix + digit_val(s[j]) >= radix_val(s.take(j), radix))
            by (nonlinear_arith)
            requires
                radix >= 2,
                radix_val(s.take(j), radix) >= 0,
                digit_val(s[j]) >= 0,
        ;
    }
}

/// The digit value of a scalar, if it is a digit of the radix.
fn radix_digit(c: char, radix: u64) -> (r: Option<u64>)
    requires
        radix == 2 || radix == 10 || radix == 16,
    ensures
        match r {
            Some(v) => is_radix_digit(c, radix as u32) && v == digit_val(c),
            None => !is_radix_digit(c, radix as u32),
        },
{
    let u: u32 = c as u32;
    if radix == 2 {
        if c == '0' {
            Some(0)
        } else if c == '1' {
            Some(1)
        } else {
            None
        }
    } else if 48 <= u && u <= 57 {
        Some((u - 48) as u64)
    } else if radix == 16 && 97 <= u && u <= 102 {
        Some((u - 87) as u64)
    } else if radix == 16 && 65 <= u && u <= 70 {
        Some((u - 55) as u64)
    } else {
        None
    }
}

/// Reads a digit sequence in the given radix as an unsigned 64-bit value.
///
/// Yields the denoted value exactly when the sequence is non-empty, every
/// scalar is a digit of the radix, and the value fits; `None` otherwise.
pub fn parse_radix_u64(digits: &Vec<char>, radix: u64) -> (r: Option<u64>)
    requires
        radix == 2 || radix == 10 || radix == 16,
    ensures
        match r {
            Some(v) => digits@.len() > 0 && all_radix_digits(digits@, radix as u32) && v
                == radix_val(digits@, radix as u32),
            None => digits@.len() == 0 || !all_radix_digits(digits@, radix as u32) || radix_val(
                digits@,
                radix as u32,
            ) > u64::MAX,
        },
{
    if digits.len() == 0 {
        return None;
    }
    let mut acc: u64 = 0;
    let mut i: usize = 0;
    while i < digits.len()
        invariant
            radix == 2 || radix == 10 || radix == 16,
            0 <= i <= digits@.len(),
            all_radix_digits(digits@.take(i as int), radix as u32),
            acc == radix_val(digits@.take(i as int), radix as u32),
        decreases digits@.len() - i,
    {
        let c: char = digits[i];
        match radix_digit(c, radix) {
            None => {
                assert(!all_radix_digits(digits@, radix as u32));
                return None;
            },
            Some(d) => {
                proof {
                    assert((acc as u128) * (radix as u128) <= u64::MAX as u128 * 16) by (
                    nonlinear_arith)
                        requires
                            acc <= u64::MAX,
                            radix <= 16,
                    ;
                }
                let wide: u128 = (acc as u128) * (radix as u128) + (d as u128);
                proof {
                    assert(digits@.take(i + 1).drop_last() =~= digits@.take(i as int));
                    assert(digits@.take(i + 1).last() == digits@[i as int]);
                }
                assert(radix_val(digits@.take(i + 1), radix as u32) == acc * radix + d);
                if wide > 0xffff_ffff_ffff_ffffu128 {
                    proof {
                        if all_radix_digits(digits@, radix as u32) {
                            lemma_radix_val_prefix_le(digits@, radix as u32, i + 1);
                        }
                    }
                    return None;
                }
                acc = wide as u64;
                i = i + 1;
            },
        }
    }
    proof {
        assert(digits@.take(digits@.len() as int) =~= digits@);
    }
    Some(acc)
}

/// The greatest value each integer width admits for an unsigned literal.
pub open spec fn num_type_max(ty: NumType) -> int {
    match ty {
        NumType::Byte => 0x7f,
        NumType::UByte => 0xff,
        NumType::Short => 0x7fff,
        NumType::UShort => 0xffff,
        NumType::Int => 0x7fff_ffff,
        NumType::UInt => 0xffff_ffff,
        NumType::Long => 0x7fff_ffff_ffff_ffff,
        NumType::ULong => 0xffff_ffff_ffff_ffff,
        NumType::Float => 0,
        NumType::Double => 0,
    }
}

/// The literal an unsigned value makes at an integer width, when it fits.
pub open spec fn int_literal_of(v: u64, ty: NumType) -> Option<NumberLiteral> {
    if ty is Float || ty is Double || v > num_type_max(ty) {
        None
    } else {
        match ty {
            NumType::Byte => Some(NumberLiteral::Byte(v as i8)),
            NumType::UByte => Some(NumberLiteral::UByte(v as u8)),
            NumType::Short => Some(NumberLiteral::Short(v as i16)),
            NumType::UShort => Some(NumberLiteral::UShort(v as u16)),
            NumType::Int => Some(NumberLiteral::Int(v as i32)),
            NumType::UInt => Some(NumberLiteral::UInt(v as u32)),
            NumType::Long => Some(NumberLiteral::Long(v as i64)),
            NumType::ULong => Some(NumberLiteral::ULong(v as u64)),
            _ => None,
        }
    }
}

/// Makes the literal of an integer width from an unsigned value, exactly
/// when the value fits that width.
pub fn make_int_literal(v: u64, ty: NumType) -> (r: Option<NumberLiteral>)
    ensures
        r == int_literal_of(v, ty),
{
    match ty {
        NumType::Byte => if v <= 0x7f {
            Some(NumberLiteral::Byte(v as i8))
        } else {
            None
        },
        NumType::UByte => if v <= 0xff {
            Some(NumberLiteral::UByte(v as u8))
        } else {
            None
        },
        NumType::Short => if v <= 0x7fff {
            Some(NumberLiteral::Short(v as i16))
        } else {
            None
        },
        NumType::UShort => if v <= 0xffff {
            Some(NumberLiteral::UShort(v as u16))
        } else {
            None
        },
        NumType::Int => if v <= 0x7fff_ffff {
            Some(NumberLiteral::Int(v as i32))
        } else {
            None
        },
        NumType::UInt => if v <= 0xffff_ffff {
            Some(NumberLiteral::UInt(v as u32))
        } else {
            None
        },
        NumType::Long => if v <= 0x7fff_ffff_ffff_ffff {
            Some(NumberLiteral::Long(v as i64))
        } else {
            None
        },
        NumType::ULong => Some(NumberLiteral::ULong(v)),
        NumType::Float => None,
        NumType::Double => None,
    }
}

/// Whether a scalar is one of the integer unit prefixes `K M G T P E`.
pub open spec fn is_integer_prefix(c: char) -> bool {
    c == 'E' || c == 'P' || c == 'T' || c == 'G' || c == 'M' || c == 'K'
}

/// Whether a scalar is one of the fraction unit prefixes `m u n p f a`.
pub open spec fn is_fraction_prefix(c: char) -> bool {
    c == 'm' || c == 'u' || c == 'n' || c == 'p' || c == 'f' || c == 'a'
}

/// The scale of an integer unit prefix: a power of ten, or a power of two
/// for the binary form (`Ki`, `KB`, ...).
pub open spec fn integer_prefix_scale(c: char, binary: bool) -> u64 {
    if binary {
        if c == 'E' {
            0x1000_0000_0000_0000
        } else if c == 'P' {
            0x4_0000_0000_0000
        } else if c == 'T' {
            0x100_0000_0000
        } else if c == 'G' {
            0x4000_0000
        } else if c == 'M' {
            0x10_0000
        } else {
            0x400
        }
    } else {
        if c == 'E' {
            1_000_000_000_000_000_000
        } else if c == 'P' {
            1_000_000_000_000_000
        } else if c == 'T' {
            1_000_000_000_000
        } else if c == 'G' {
            1_000_000_000
        } else if c == 'M' {
            1_000_000
        } else {
            1_000
        }
    }
}

/// Looks up the scale of an integer unit prefix.
pub fn integer_prefix_value(c: char, binary: bool) -> (r: u64)
    requires
        is_integer_prefix(c),
    ensures
        r == integer_prefix_scale(c, binary),
{
    if binary {
        if c == 'E' {
            0x1000_0000_0000_0000
        } else if c == 'P' {
            0x4_0000_0000_0000
        } else if c == 'T' {
            0x100_0000_0000
        } else if c == 'G' {
            0x4000_0000
        } else if c == 'M' {
            0x10_0000
        } else {
            0x400
        }
    } else {
        if c == 'E' {
            1_000_000_000_000_000_000
        } else if c == 'P' {
            1_000_000_000_000_000
        } else if c == 'T' {
            1_000_000_000_000
        } else if c == 'G' {
            1_000_000_000
        } else if c == 'M' {
            1_000_000
        } else {
            1_000
        }
    }
}

/// The decimal text of the power of ten a fraction unit prefix scales by:
/// `m` a thousand, down to `a` a quintillion.
pub open spec fn fraction_prefix_text(c: char) -> Seq<char> {
    if c == 'a' {
        seq!['1', 'e', '1', '8']
    } else if c == 'f' {
        seq!['1', 'e', '1', '5']
    } else if c == 'p' {
        seq!['1', 'e', '1', '2']
    } else if c == 'n' {
        seq!['1', 'e', '9']
    } else if c == 'u' {
        seq!['1', 'e', '6']
    } else {
        seq!['1', 'e', '3']
    }
}

/// Builds the decimal text of a fraction unit prefix's scale; the named
/// decimal conversion of this text is the single-precision scale divided
/// by.
pub fn fraction_prefix_scale_text(c: char) -> (r: Vec<char>)
    requires
        is_fraction_prefix(c),
    ensures
        r@ == fraction_prefix_text(c),
{
    let mut text: Vec<char> = Vec::new();
    text.push('1');
    text.push('e');
    if c == 'a' {
        text.push('1');
        text.push('8');
    } else if c == 'f' {
        text.push('1');
        text.push('5');
    } else if c == 'p' {
        text.push('1');
        text.push('2');
    } else if c == 'n' {
        text.push('9');
    } else if c == 'u' {
        text.push('6');
    } else {
        text.push('3');
    }
    proof {
        assert(text@ =~= fraction_prefix_text(c));
    }
    text
}

/// Whether an optional unit prefix is one of the integer prefixes.
pub open spec fn has_int_prefix(prefix: Option<char>) -> bool {
    match prefix {
        Some(c) => is_integer_prefix(c),
        None => false,
    }
}

/// Whether an optional unit prefix is one of the fraction prefixes.
pub open spec fn has_frac_prefix(prefix: Option<char>) -> bool {
    match prefix {
        Some(c) => is_fraction_prefix(c),
        None => false,
    }
}

/// The literal that a plain digit sequence makes at an integer width:
/// defined exactly when the sequence is non-empty, all digits of the radix,
/// and its value fits the width.
pub open spec fn spec_radix_int(s: Seq<char>, radix: u32, ty: NumType) -> Option<NumberLiteral> {
    if s.len() > 0 && all_radix_digits(s, radix) && radix_val(s, radix) <= num_type_max(ty) {
        int_literal_of(radix_val(s, radix) as u64, ty)
    } else {
        None
    }
}

/// A decimal literal at an integer width, with an optional integer unit
/// prefix: the digits are read first; `T`, `P` and `E` are refused at the
/// 32-bit widths; then the scaled value must still fit the width.
pub open spec fn spec_dec_scaled_int(
    s: Seq<char>,
    prefix: Option<char>,
    binary_prefix: bool,
    ty: NumType,
) -> Option<NumberLiteral> {
    match spec_radix_int(s, 10, ty) {
        None => None,
        Some(lit) => match prefix {
            None => Some(lit),
            Some(c) => {
                if (ty is Int || ty is UInt) && (c == 'T' || c == 'P' || c == 'E') {
                    None
                } else {
                    let scaled = radix_val(s, 10) * integer_prefix_scale(c, binary_prefix);
                    if scaled > num_type_max(ty) {
                        None
                    } else {
                        int_literal_of(scaled as u64, ty)
                    }
                }
            },
        },
    }
}

/// A decimal literal at single precision: the named rounding of the text,
/// refused when it rounds to an infinity (overflow) or NaN; a fraction unit
/// prefix divides the value by its scale - the named rounding of the
/// scale's own decimal text, which must be positive and finite - and the
/// quotient must itself stay finite and not NaN.
pub open spec fn spec_dec_float32(s: Seq<char>, prefix: Option<char>) -> Option<NumberLiteral> {
    match decf32_of(s) {
        None => None,
        Some(bits) => {
            if spec_f32_is_infinite(bits) || spec_f32_is_nan(bits) {
                None
            } else {
                match prefix {
                    Some(c) => match decf32_of(fraction_prefix_text(c)) {
                        None => None,
                        Some(scale) => {
                            if !(0 < scale < 0x7f80_0000) {
                                None
                            } else {
                                let q = f32_div_of(bits, scale);
                                if spec_f32_is_infinite(q) || spec_f32_is_nan(q) {
                                    None
                                } else {
                                    Some(NumberLiteral::Float(q))
                                }
                            }
                        },
                    },
                    None => Some(NumberLiteral::Float(bits)),
                }
            }
        },
    }
}

/// A decimal literal at double precision; the fraction prefix scale is
/// read at single precision and widened, as the grammar prescribes, and
/// the quotient must stay finite and not NaN.
pub open spec fn spec_dec_float64(s: Seq<char>, prefix: Option<char>) -> Option<NumberLiteral> {
    match decf64_of(s) {
        None => None,
        Some(bits) => {
            if spec_f64_is_infinite(bits) || spec_f64_is_nan(bits) {
                None
            } else {
                match prefix {
                    Some(c) => match decf32_of(fraction_prefix_text(c)) {
                        None => None,
                        Some(scale) => {
                            if !(0 < scale < 0x7f80_0000) {
                                None
                            } else {
                                let q = f64_div_f32_of(bits, scale);
                                if spec_f64_is_infinite(q) || spec_f64_is_nan(q) {
                                    None
                                } else {
                                    Some(NumberLiteral::Double(q))
                                }
                            }
                        },
                    },
                    None => Some(NumberLiteral::Double(bits)),
                }
            }
        },
    }
}

/// The complete decimal rule table: which literal a scanned decimal number
/// makes from its digits-and-marks text, unit prefix, prefix form, the
/// presence of a point or exponent, and the selected width; `None` is an
/// error.
pub open spec fn spec_decimal_literal(
    s: Seq<char>,
    prefix: Option<char>,
    binary_prefix: bool,
    has_point_or_exp: bool,
    ty: Option<NumType>,
) -> Option<NumberLiteral> {
    match ty {
        Some(t) => {
            if has_int_prefix(prefix) && !(t is Int || t is UInt || t is Long || t is ULong) {
                None
            } else if has_frac_prefix(prefix) && !(t is Float || t is Double) {
                None
            } else if t is Float {
                spec_dec_float32(s, prefix)
            } else if t is Double {
                spec_dec_float64(s, prefix)
            } else {
                spec_dec_scaled_int(s, prefix, binary_prefix, t)
            }
        },
        None => {
            if has_int_prefix(prefix) {
                spec_dec_scaled_int(s, prefix, binary_prefix, NumType::Int)
            } else if has_frac_prefix(prefix) {
                spec_dec_float32(s, prefix)
            } else if has_point_or_exp {
                spec_dec_float32(s, None)
            } else {
                spec_radix_int(s, 10, NumType::Int)
            }
        },
    }
}

/// The complete hexadecimal rule table: a point or binary exponent makes a
/// hexadecimal float (single precision unless `@double`), otherwise an
/// integer literal of the selected width; `None` is an error.
pub open spec fn spec_hex_literal(
    s: Seq<char>,
    has_point_or_exp: bool,
    ty: Option<NumType>,
) -> Option<NumberLiteral> {
    if s.len() == 0 {
        None
    } else if has_point_or_exp {
        match ty {
            Some(t) if !(t is Float || t is Double) => None,
            Some(t) if t is Double => {
                if !spec_hexfloat_arith_safe(seq!['0', 'x'] + s, 1023) {
                    None
                } else {
                    match hexf64_of(seq!['0', 'x'] + s) {
                        None => None,
                        Some(bits) => Some(NumberLiteral::Double(bits)),
                    }
                }
            },
            _ => {
                if !spec_hexfloat_arith_safe(seq!['0', 'x'] + s, 127) {
                    None
                } else {
                    match hexf32_of(seq!['0', 'x'] + s) {
                        None => None,
                        Some(bits) => Some(NumberLiteral::Float(bits)),
                    }
                }
            },
        }
    } else {
        match ty {
            Some(t) => if t is Float || t is Double {
                None
            } else {
                spec_radix_int(s, 16, t)
            },
            None => spec_radix_int(s, 16, NumType::Int),
        }
    }
}

/// The complete binary rule table: no float form exists; an integer literal
/// of the selected width; `None` is an error.
pub open spec fn spec_binary_literal(s: Seq<char>, ty: Option<NumType>) -> Option<NumberLiteral> {
    if s.len() == 0 {
        None
    } else {
        match ty {
            Some(t) => if t is Float || t is Double {
                None
            } else {
                spec_radix_int(s, 2, t)
            },
            None => spec_radix_int(s, 2, NumType::Int),
        }
    }
}

fn err(text: &str) -> (r: Result<NumberLiteral, AsonError>)
    ensures
        r is Err,
{
    Err(AsonError::Message(text.to_owned()))
}

/// Reads a plain digit sequence at an integer width.
fn radix_int(num: &Vec<char>, radix: u64, ty: NumType) -> (r: Result<NumberLiteral, AsonError>)
    requires
        radix == 2 || radix == 10 || radix == 16,
        !(ty is Float || ty is Double),
    ensures
        match r {
            Ok(lit) => spec_radix_int(num@, radix as u32, ty) == Some(lit),
            Err(_) => spec_radix_int(num@, radix as u32, ty) is None,
        },
{
    match parse_radix_u64(num, radix) {
        None => err("The digits do not form a number of this radix, or overflow."),
        Some(v) => match make_int_literal(v, ty) {
            None => err("The number overflows the selected width."),
            Some(lit) => Ok(lit),
        },
    }
}

/// Reads a decimal digit sequence at an integer width and applies an
/// optional integer unit prefix, exactly as the decimal rule table says.
fn dec_scaled_int(
    num: &Vec<char>,
    prefix: Option<char>,
    binary_prefix: bool,
    ty: NumType,
) -> (r: Result<NumberLiteral, AsonError>)
    requires
        ty is Int || ty is UInt || ty is Long || ty is ULong,
        match prefix {
            Some(c) => is_integer_prefix(c),
            None => true,
        },
    ensures
        match r {
            Ok(lit) => spec_dec_scaled_int(num@, prefix, binary_prefix, ty) == Some(lit),
            Err(_) => spec_dec_scaled_int(num@, prefix, binary_prefix, ty) is None,
        },
{
    let v: u64 = match parse_radix_u64(num, 10) {
        None => {
            return err("The digits do not form a decimal number, or overflow.");
        },
        Some(v) => v,
    };
    let base = match make_int_literal(v, ty) {
        None => {
            return err("The number overflows the selected width.");
        },
        Some(lit) => lit,
    };
    match prefix {
        None => Ok(base),
        Some(c) => {
            if (matches!(ty, NumType::Int) || matches!(ty, NumType::UInt)) && (c == 'T' || c == 'P'
                || c == 'E') {
                return err(
                    "The unit prefix is out of range for this width; consider the long or ulong types.",
                );
            }
            let scale: u64 = integer_prefix_value(c, binary_prefix);
            proof {
                assert((v as int) * (scale as int) < 0x1_0000_0000_0000_0000_0000_0000_0000_0000)
                    by (nonlinear_arith)
                    requires
                        v <= 0xffff_ffff_ffff_ffffu64,
                        scale <= 0x1000_0000_0000_0000u64,
                ;
            }
            let scaled: u128 = (v as u128) * (scale as u128);
            let max: u128 = match ty {
                NumType::Int => 0x7fff_ffff,
                NumType::UInt => 0xffff_ffff,
                NumType::Long => 0x7fff_ffff_ffff_ffff,
                _ => 0xffff_ffff_ffff_ffff,
            };
            if scaled > max {
                err("The scaled number overflows the selected width.")
            } else {
                match make_int_literal(scaled as u64, ty) {
                    None => err("The scaled number overflows the selected width."),
                    Some(lit) => Ok(lit),
                }
            }
        },
    }
}

/// Reads a decimal text at single precision, refusing overflow to infinity
/// and NaN, and applies an optional fraction unit prefix.
fn dec_float32(num: &Vec<char>, prefix: Option<char>) -> (r: Result<NumberLiteral, AsonError>)
    requires
        match prefix {
            Some(c) => is_fraction_prefix(c),
            None => true,
        },
    ensures
        match r {
            Ok(lit) => spec_dec_float32(num@, prefix) == Some(lit),
            Err(_) => spec_dec_float32(num@, prefix) is None,
        },
{
    match parse_dec_f32(num) {
        None => err("The text cannot be read as a floating-point number."),
        Some(bits) => {
            if f32_bits_is_infinite(bits) {
                err("Floating point number overflow.")
            } else if f32_bits_is_nan(bits) {
                err("Does not support NaN floating point numbers.")
            } else {
                match prefix {
                    Some(c) => {
                        let scale_text = fraction_prefix_scale_text(c);
                        match parse_dec_f32(&scale_text) {
                            None => err("The unit prefix scale cannot be read."),
                            Some(scale) => {
                                if !(0 < scale && scale < 0x7f80_0000) {
                                    err("The unit prefix scale is out of range.")
                                } else {
                                    let q = f32_div(bits, scale);
                                    if f32_bits_is_infinite(q) || f32_bits_is_nan(q) {
                                        err("The scaled number is not finite.")
                                    } else {
                                        Ok(NumberLiteral::Float(q))
                                    }
                                }
                            },
                        }
                    },
                    None => Ok(NumberLiteral::Float(bits)),
                }
            }
        },
    }
}

/// Reads a decimal text at double precision, refusing overflow to infinity
/// and NaN, and applies an optional fraction unit prefix.
fn dec_float64(num: &Vec<char>, prefix: Option<char>) -> (r: Result<NumberLiteral, AsonError>)
    requires
        match prefix {
            Some(c) => is_fraction_prefix(c),
            None => true,
        },
    ensures
        match r {
            Ok(lit) => spec_dec_float64(num@, prefix) == Some(lit),
            Err(_) => spec_dec_float64(num@, prefix) is None,
        },
{
    match parse_dec_f64(num) {
        None => err("The text cannot be read as a floating-point number."),
        Some(bits) => {
            if f64_bits_is_infinite(bits) {
                err("Floating point number overflow.")
            } else if f64_bits_is_nan(bits) {
                err("Does not support NaN floating point numbers.")
            } else {
                match prefix {
                    Some(c) => {
                        let scale_text = fraction_prefix_scale_text(c);
                        match parse_dec_f32(&scale_text) {
                            None => err("The unit prefix scale cannot be read."),
                            Some(scale) => {
                                if !(0 < scale && scale < 0x7f80_0000) {
                                    err("The unit prefix scale is out of range.")
                                } else {
                                    let q = f64_div_by_f32(bits, scale);
                                    if f64_bits_is_infinite(q) || f64_bits_is_nan(q) {
                                        err("The scaled number is not finite.")
                                    } else {
                                        Ok(NumberLiteral::Double(q))
                                    }
                                }
                            },
                        }
                    },
                    None => Ok(NumberLiteral::Double(bits)),
                }
            }
        },
    }
}

/// Makes the literal of a scanned decimal number, exactly as the decimal
/// rule table says; an error reports which rule refused it.
pub fn make_decimal_literal(
    num: &Vec<char>,
    prefix: Option<char>,
    binary_prefix: bool,
    has_point_or_exp: bool,
    ty: Option<NumType>,
) -> (r: Result<NumberLiteral, AsonError>)
    requires
        match prefix {
            Some(c) => is_integer_prefix(c) || is_fraction_prefix(c),
            None => true,
        },
    ensures
        match r {
            Ok(lit) => spec_decimal_literal(num@, prefix, binary_prefix, has_point_or_exp, ty)
                == Some(lit),
            Err(_) => spec_decimal_literal(num@, prefix, binary_prefix, has_point_or_exp, ty)
                is None,
        },
{
    let has_ip: bool = match prefix {
        Some(c) => c == 'E' || c == 'P' || c == 'T' || c == 'G' || c == 'M' || c == 'K',
        None => false,
    };
    let has_fp: bool = match prefix {
        Some(c) => c == 'm' || c == 'u' || c == 'n' || c == 'p' || c == 'f' || c == 'a',
        None => false,
    };
    match ty {
        Some(t) => {
            if has_ip && !(matches!(t, NumType::Int) || matches!(t, NumType::UInt) || matches!(
                t,
                NumType::Long,
            ) || matches!(t, NumType::ULong)) {
                err("Only int, uint, long and ulong numbers can carry an integer unit prefix.")
            } else if has_fp && !(matches!(t, NumType::Float) || matches!(t, NumType::Double)) {
                err("Only float and double numbers can carry a fraction unit prefix.")
            } else {
                match t {
                    NumType::Float => dec_float32(num, prefix),
                    NumType::Double => dec_float64(num, prefix),
                    NumType::Int | NumType::UInt | NumType::Long | NumType::ULong => dec_scaled_int(
                        num,
                        prefix,
                        binary_prefix,
                        t,
                    ),
                    _ => radix_int(num, 10, t),
                }
            }
        },
        None => {
            if has_ip {
                dec_scaled_int(num, prefix, binary_prefix, NumType::Int)
            } else if has_fp {
                dec_float32(num, prefix)
            } else if has_point_or_exp {
                dec_float32(num, None)
            } else {
                radix_int(num, 10, NumType::Int)
            }
        },
    }
}


/// How many `0` scalars a text begins with: the leading zeros that the
/// hexadecimal-float parser consumes before counting mantissa digits.
pub open spec fn count_zero_digits(s: Seq<char>) -> int
    decreases s.len(),
{
    if s.len() > 0 && s[0] == '0' {
        1 + count_zero_digits(s.drop_first())
    } else {
        0
    }
}

pub proof fn lemma_count_zero_digits(s: Seq<char>)
    ensures
        0 <= count_zero_digits(s) <= s.len(),
    decreases s.len(),
{
    if s.len() > 0 && s[0] == '0' {
        lemma_count_zero_digits(s.drop_first());
    }
}

/// Mirrors the mantissa scan of hexfloat2's parser: at most sixteen digits
/// are kept, one point is allowed, underscores are skipped, and the scan
/// stops at the binary exponent marker or the end of the text. Yields the
/// kept-digit count, the point position among kept digits, whether any kept
/// digit is non-zero, and the rest of the text; `None` where that parser
/// rejects the text before any exponent arithmetic (a second point, more
/// than sixteen digits left of the point, or a foreign scalar).
pub open spec fn spec_hexfloat_mantissa(
    s: Seq<char>,
    count: int,
    point: Option<int>,
    nonzero: bool,
) -> Option<(int, Option<int>, bool, Seq<char>)>
    decreases s.len(),
{
    if s.len() == 0 {
        Some((count, point, nonzero, s))
    } else {
        let c = s[0];
        if c == 'p' || c == 'P' {
            Some((count, point, nonzero, s))
        } else if c == '.' {
            if point is Some {
                None
            } else {
                spec_hexfloat_mantissa(s.drop_first(), count, Some(count), nonzero)
            }
        } else if c == '_' {
            spec_hexfloat_mantissa(s.drop_first(), count, point, nonzero)
        } else if is_radix_digit(c, 16) {
            if count >= 16 {
                if point is None {
                    None
                } else {
                    spec_hexfloat_mantissa(s.drop_first(), count, point, nonzero)
                }
            } else {
                spec_hexfloat_mantissa(s.drop_first(), count + 1, point, nonzero || c != '0')
            }
        } else {
            None
        }
    }
}

/// The domain on which hexfloat2's parser reaches its exponent arithmetic
/// only with values that stay inside 32 bits, so that the call can neither
/// overflow nor shift out of range in any build. The parser adjusts the
/// written binary exponent by four per mantissa digit left of the point
/// (sixteen minus the digits right of it) and then by at most the mantissa
/// width, and it underflows exactly when the adjusted exponent falls below
/// the negated exponent bias; a zero mantissa, a malformed text or an
/// exponent its own checked accumulation refuses never reaches the
/// arithmetic at all.
pub open spec fn spec_hexfloat_arith_safe(s: Seq<char>, bias: int) -> bool {
    let s1 = if s.len() > 0 && (s[0] == '+' || s[0] == '-') {
        s.drop_first()
    } else {
        s
    };
    if s1.len() < 2 || s1[0] != '0' || !(s1[1] == 'x' || s1[1] == 'X') {
        true
    } else {
        let m = s1.skip(2);
        let lz = count_zero_digits(m);
        match spec_hexfloat_mantissa(m.skip(lz), 0, None, false) {
            None => true,
            Some((count, point, nonzero, rest)) => {
                if count == 0 && lz == 0 {
                    true
                } else if !nonzero {
                    true
                } else if rest.len() == 0 {
                    true
                } else {
                    let t = rest.drop_first();
                    let neg = t.len() > 0 && t[0] == '-';
                    let t2 = if t.len() > 0 && (t[0] == '-' || t[0] == '+') {
                        t.drop_first()
                    } else {
                        t
                    };
                    if t2.len() == 0 || !all_radix_digits(t2, 10) {
                        true
                    } else {
                        let v = radix_val(t2, 10);
                        if v > 0x7fff_ffff {
                            true
                        } else {
                            let p = (match point {
                                Some(p0) => p0,
                                None => count,
                            }) + 16 - count;
                            let e = if neg {
                                -v
                            } else {
                                v
                            };
                            -bias <= e + 4 * p - 1 <= 0x7fff_0000
                        }
                    }
                }
            },
        }
    }
}

/// Decides `spec_hexfloat_arith_safe` for a text about to be handed to the
/// hexadecimal-float reader.
#[verifier::rlimit(100)]
fn hexfloat_arith_safe(text: &Vec<char>, bias: u64) -> (r: bool)
    requires
        bias == 127 || bias == 1023,
    ensures
        r == spec_hexfloat_arith_safe(text@, bias as int),
{
    let n: usize = text.len();
    let start: usize = if n > 0 && (text[0] == '+' || text[0] == '-') {
        1
    } else {
        0
    };
    let ghost s1 = if start == 1 {
        text@.drop_first()
    } else {
        text@
    };
    proof {
        if start == 1 {
            assert(s1 =~= text@.skip(1));
        }
    }
    if !(n >= start + 2 && text[start] == '0' && (text[start + 1] == 'x' || text[start + 1]
        == 'X')) {
        return true;
    }
    let ghost m = s1.skip(2);
    proof {
        assert(m =~= text@.skip(start + 2));
        lemma_count_zero_digits(m);
    }
    let mut j: usize = start + 2;
    while j < n && text[j] == '0'
        invariant
            start + 2 <= j <= n,
            n == text@.len(),
            count_zero_digits(m) == (j - (start + 2)) + count_zero_digits(text@.skip(j as int)),
        decreases n - j,
    {
        proof {
            assert(text@.skip(j as int).drop_first() =~= text@.skip(j as int + 1));
        }
        j = j + 1;
    }
    proof {
        assert(count_zero_digits(text@.skip(j as int)) == 0);
        assert(m.skip(count_zero_digits(m)) =~= text@.skip(j as int));
    }
    let mut k: usize = j;
    let mut count: u64 = 0;
    let mut point: Option<u64> = None;
    let mut nonzero: bool = false;
    loop
        invariant
            j <= k <= n,
            n == text@.len(),
            count <= 16,
            match point {
                Some(p0) => p0 <= count,
                None => true,
            },
            spec_hexfloat_mantissa(text@.skip(j as int), 0, None, false) == spec_hexfloat_mantissa(
                text@.skip(k as int),
                count as int,
                match point {
                    Some(p0) => Some(p0 as int),
                    None => None,
                },
                nonzero,
            ),
        decreases n - k,
    {
        let ghost pre = text@.skip(k as int);
        let done: bool = if k == n {
            true
        } else {
            text[k] == 'p' || text[k] == 'P'
        };
        if done {
            // the scan has stopped: apply the exponent rules
            if count == 0 && j == start + 2 {
                return true;
            }
            if !nonzero {
                return true;
            }
            if k == n {
                return true;
            }
            let mut k2: usize = k + 1;
            let ghost t = text@.skip(k as int).drop_first();
            proof {
                assert(t =~= text@.skip(k as int + 1));
            }
            let neg: bool = k2 < n && text[k2] == '-';
            if k2 < n && (text[k2] == '-' || text[k2] == '+') {
                k2 = k2 + 1;
            }
            let ghost t2 = text@.skip(k2 as int);
            proof {
                if t.len() > 0 && (t[0] == '-' || t[0] == '+') {
                    assert(t.drop_first() =~= t2);
                } else {
                    assert(t =~= t2);
                }
            }
            if k2 == n {
                return true;
            }
            let mut run: Vec<char> = Vec::new();
            let mut k3: usize = k2;
            while k3 < n
                invariant
                    k2 <= k3 <= n,
                    n == text@.len(),
                    run@ == text@.subrange(k2 as int, k3 as int),
                decreases n - k3,
            {
                let c: char = text[k3];
                let u: u32 = c as u32;
                if !(48 <= u && u <= 57) {
                    proof {
                        assert(t2[k3 - k2] == c);
                        assert(!is_radix_digit(t2[k3 - k2], 10));
                    }
                    return true;
                }
                proof {
                    assert(text@.subrange(k2 as int, k3 as int).push(text@[k3 as int])
                        =~= text@.subrange(k2 as int, k3 as int + 1));
                }
                run.push(c);
                k3 = k3 + 1;
            }
            proof {
                assert(run@ =~= t2);
            }
            let v: u64 = match parse_radix_u64(&run, 10) {
                None => {
                    proof {
                        if all_radix_digits(t2, 10) {
                            assert(radix_val(t2, 10) > u64::MAX);
                        }
                    }
                    return true;
                },
                Some(v) => v,
            };
            if v > 0x7fff_ffff {
                return true;
            }
            let p: u64 = (match point {
                Some(p0) => p0,
                None => count,
            }) + 16 - count;
            let e1: i64 = (if neg {
                -(v as i64)
            } else {
                v as i64
            }) + 4 * (p as i64) - 1;
            return -(bias as i64) <= e1 && e1 <= 0x7fff_0000;
        }
        let c: char = text[k];
        if c == '.' {
            if point.is_some() {
                return true;
            }
            point = Some(count);
            k = k + 1;
        } else if c == '_' {
            k = k + 1;
        } else if hex_digit(c) {
            if count >= 16 {
                if point.is_none() {
                    return true;
                }
                k = k + 1;
            } else {
                count = count + 1;
                nonzero = nonzero || c != '0';
                k = k + 1;
            }
        } else {
            return true;
        }
        proof {
            assert(pre.drop_first() =~= text@.skip(k as int));
        }
    }
}

fn hex_digit(c: char) -> (b: bool)
    ensures
        b == is_radix_digit(c, 16),
{
    let u: u32 = c as u32;
    (48 <= u && u <= 57) || (97 <= u && u <= 102) || (65 <= u && u <= 70)
}

/// Makes the literal of a scanned hexadecimal number, exactly as the
/// hexadecimal rule table says.
pub fn make_hex_literal(
    num: &Vec<char>,
    has_point_or_exp: bool,
    ty: Option<NumType>,
) -> (r: Result<NumberLiteral, AsonError>)
    ensures
        match r {
            Ok(lit) => spec_hex_literal(num@, has_point_or_exp, ty) == Some(lit),
            Err(_) => spec_hex_literal(num@, has_point_or_exp, ty) is None,
        },
{
    if num.len() == 0 {
        return err("Incomplete hexadecimal number.");
    }
    if has_point_or_exp {
        let to_double: bool = match ty {
            Some(t) => {
                if matches!(t, NumType::Double) {
                    true
                } else if matches!(t, NumType::Float) {
                    false
                } else {
                    return err(
                        "Only float and double are allowed for hexadecimal floating-point numbers.",
                    );
                }
            },
            None => false,
        };
        let mut text: Vec<char> = Vec::new();
        text.push('0');
        text.push('x');
        let mut i: usize = 0;
        while i < num.len()
            invariant
                text@ == seq!['0', 'x'] + num@.take(i as int),
                0 <= i <= num@.len(),
            decreases num@.len() - i,
        {
            text.push(num[i]);
            proof {
                assert(text@ =~= seq!['0', 'x'] + num@.take(i + 1));
            }
            i = i + 1;
        }
        proof {
            assert(num@.take(num@.len() as int) =~= num@);
        }
        if to_double {
            if !hexfloat_arith_safe(&text, 1023) {
                return err("The binary exponent of the hexadecimal float is out of range.");
            }
            match crate::foreign::parse_hex_f64(&text) {
                None => err("The text cannot be read as a hexadecimal floating-point number."),
                Some(bits) => Ok(NumberLiteral::Double(bits)),
            }
        } else {
            if !hexfloat_arith_safe(&text, 127) {
                return err("The binary exponent of the hexadecimal float is out of range.");
            }
            match crate::foreign::parse_hex_f32(&text) {
                None => err("The text cannot be read as a hexadecimal floating-point number."),
                Some(bits) => Ok(NumberLiteral::Float(bits)),
            }
        }
    } else {
        match ty {
            Some(t) => {
                if matches!(t, NumType::Float) || matches!(t, NumType::Double) {
                    err("A hexadecimal number without a point or exponent cannot be a float.")
                } else {
                    radix_int(num, 16, t)
                }
            },
            None => radix_int(num, 16, NumType::Int),
        }
    }
}

/// Makes the literal of a scanned binary number, exactly as the binary rule
/// table says.
pub fn make_binary_literal(num: &Vec<char>, ty: Option<NumType>) -> (r: Result<
    NumberLiteral,
    AsonError,
>)
    ensures
        match r {
            Ok(lit) => spec_binary_literal(num@, ty) == Some(lit),
            Err(_) => spec_binary_literal(num@, ty) is None,
        },
{
    if num.len() == 0 {
        return err("Incomplete binary number.");
    }
    match ty {
        Some(t) => {
            if matches!(t, NumType::Float) || matches!(t, NumType::Double) {
                err("Does not support binary floating point numbers.")
            } else {
                radix_int(num, 2, t)
            }
        },
        None => radix_int(num, 2, NumType::Int),
    }
}

/// Law: the decimal numeric grammar never yields a NaN or infinite
/// floating-point literal: a value that rounds to an infinity is an
/// overflow error, NaN never arises, and a unit-prefix quotient that left
/// the finite range would be an error as well.
pub proof fn lemma_decimal_literal_floats_finite(
    s: Seq<char>,
    prefix: Option<char>,
    binary_prefix: bool,
    has_point_or_exp: bool,
    ty: Option<NumType>,
)
    ensures
        match spec_decimal_literal(s, prefix, binary_prefix, has_point_or_exp, ty) {
            Some(lit) => match lit {
                NumberLiteral::Float(b) => !spec_f32_is_nan(b) && !spec_f32_is_infinite(b),
                NumberLiteral::Double(b) => !spec_f64_is_nan(b) && !spec_f64_is_infinite(b),
                _ => true,
            },
            None => true,
        },
{
}

} // verus!
