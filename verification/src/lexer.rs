//! The tokenizer: one dispatch step per token, keyed on the current scalar
//! value with at most two scalars of lookahead.
//!
//! Every scanning function is stated against a spec mirror over the
//! remaining input sequence, so the whole token stream that `lex` yields is
//! pinned down by `spec_lex`.
use vstd::prelude::*;

use crate::cursor::Cursor;
use crate::foreign::{char_from_u32, is_whitespace_char, ws_of};
use crate::numbers::{
    all_radix_digits, is_fraction_prefix, is_integer_prefix, is_radix_digit, radix_val,
};
use crate::token::{
    token_views,
    CommentToken, CommentTokenView, DateMoment, NumType, NumberLiteral, Token, TokenView,
    F32_INFINITY_BITS, F32_NAN_BITS, F64_INFINITY_BITS, F64_NAN_BITS,
};
use crate::AsonError;

verus! {

/// Whether a scalar ends any free-form token: whitespace, structure,
/// separators, or the start of a comment, string or character literal.
pub open spec fn is_terminator(c: char) -> bool {
    c == ' ' || c == '\t' || c == '\r' || c == '\n' || c == '(' || c == ')' || c == '{' || c == '}'
        || c == '[' || c == ']' || c == ',' || c == ':' || c == '/' || c == '\'' || c == '"'
}

fn terminator(c: char) -> (b: bool)
    ensures
        b == is_terminator(c),
{
    c == ' ' || c == '\t' || c == '\r' || c == '\n' || c == '(' || c == ')' || c == '{' || c == '}'
        || c == '[' || c == ']' || c == ',' || c == ':' || c == '/' || c == '\'' || c == '"'
}

/// Whether a scalar may continue an identifier: ASCII letters, digits,
/// `_`, and the scalar values above U+009F outside the surrogate gap.
pub open spec fn is_ident_char(c: char) -> bool {
    let u = c as u32;
    (48 <= u && u <= 57) || (65 <= u && u <= 90) || (97 <= u && u <= 122) || u == 95 || (0xa0 <= u
        && u <= 0xd7ff) || (0xe000 <= u && u <= 0x10ffff)
}

fn ident_char(c: char) -> (b: bool)
    ensures
        b == is_ident_char(c),
{
    let u: u32 = c as u32;
    (48 <= u && u <= 57) || (65 <= u && u <= 90) || (97 <= u && u <= 122) || u == 95 || (0xa0 <= u
        && u <= 0xd7ff) || (0xe000 <= u && u <= 0x10ffff)
}

/// Whether a scalar may start an identifier: as above, digits excluded.
pub open spec fn is_ident_start(c: char) -> bool {
    is_ident_char(c) && !(48 <= c as u32 && c as u32 <= 57)
}

fn dec_digit(c: char) -> (b: bool)
    ensures
        b == is_radix_digit(c, 10),
{
    let u: u32 = c as u32;
    48 <= u && u <= 57
}

fn hex_digit(c: char) -> (b: bool)
    ensures
        b == is_radix_digit(c, 16),
{
    let u: u32 = c as u32;
    (48 <= u && u <= 57) || (97 <= u && u <= 102) || (65 <= u && u <= 70)
}

fn err_token(text: &str) -> (r: Result<Token, AsonError>)
    ensures
        r is Err,
{
    Err(AsonError::Message(text.to_owned()))
}

/// Whether a scalar is an ASCII lower-case letter or digit: the characters
/// a number type name is scanned from.
pub open spec fn is_lower_or_digit(c: char) -> bool {
    let u = c as u32;
    (48 <= u && u <= 57) || (97 <= u && u <= 122)
}

fn lower_or_digit(c: char) -> (b: bool)
    ensures
        b == is_lower_or_digit(c),
{
    let u: u32 = c as u32;
    (48 <= u && u <= 57) || (97 <= u && u <= 122)
}

/// How many leading scalars of a sequence are lower-case letters or digits.
pub open spec fn count_lower_digits(s: Seq<char>) -> int
    decreases s.len(),
{
    if s.len() > 0 && is_lower_or_digit(s[0]) {
        1 + count_lower_digits(s.drop_first())
    } else {
        0
    }
}

pub proof fn lemma_count_lower_digits(s: Seq<char>)
    ensures
        0 <= count_lower_digits(s) <= s.len(),
    decreases s.len(),
{
    if s.len() > 0 && is_lower_or_digit(s[0]) {
        lemma_count_lower_digits(s.drop_first());
    }
}

/// Point-wise equality of a sequence with two given scalars.
pub open spec fn chars2(s: Seq<char>, a: char, b: char) -> bool {
    s.len() == 2 && s[0] == a && s[1] == b
}

/// Point-wise equality of a sequence with three given scalars.
pub open spec fn chars3(s: Seq<char>, a: char, b: char, c: char) -> bool {
    s.len() == 3 && s[0] == a && s[1] == b && s[2] == c
}

/// Point-wise equality of a sequence with four given scalars.
pub open spec fn chars4(s: Seq<char>, a: char, b: char, c: char, d: char) -> bool {
    s.len() == 4 && s[0] == a && s[1] == b && s[2] == c && s[3] == d
}

/// Point-wise equality of a sequence with five given scalars.
pub open spec fn chars5(s: Seq<char>, a: char, b: char, c: char, d: char, e: char) -> bool {
    s.len() == 5 && s[0] == a && s[1] == b && s[2] == c && s[3] == d && s[4] == e
}

/// Point-wise equality of a sequence with six given scalars.
pub open spec fn chars6(s: Seq<char>, a: char, b: char, c: char, d: char, e: char, f: char) -> bool {
    s.len() == 6 && s[0] == a && s[1] == b && s[2] == c && s[3] == d && s[4] == e && s[5] == f
}

/// The number type a scanned type name selects: the ten named widths, or
/// a fixed-width spelling normalized to its named form; anything else is
/// unknown.
pub open spec fn num_type_of_text(s: Seq<char>) -> Option<NumType> {
    if chars3(s, 'i', 'n', 't') || chars3(s, 'i', '3', '2') {
        Some(NumType::Int)
    } else if chars4(s, 'u', 'i', 'n', 't') || chars3(s, 'u', '3', '2') {
        Some(NumType::UInt)
    } else if chars4(s, 'l', 'o', 'n', 'g') || chars3(s, 'i', '6', '4') {
        Some(NumType::Long)
    } else if chars5(s, 'u', 'l', 'o', 'n', 'g') || chars3(s, 'u', '6', '4') {
        Some(NumType::ULong)
    } else if chars4(s, 'b', 'y', 't', 'e') || chars2(s, 'i', '8') {
        Some(NumType::Byte)
    } else if chars5(s, 'u', 'b', 'y', 't', 'e') || chars2(s, 'u', '8') {
        Some(NumType::UByte)
    } else if chars5(s, 's', 'h', 'o', 'r', 't') || chars3(s, 'i', '1', '6') {
        Some(NumType::Short)
    } else if chars6(s, 'u', 's', 'h', 'o', 'r', 't') || chars3(s, 'u', '1', '6') {
        Some(NumType::UShort)
    } else if chars5(s, 'f', 'l', 'o', 'a', 't') || chars3(s, 'f', '3', '2') {
        Some(NumType::Float)
    } else if chars6(s, 'd', 'o', 'u', 'b', 'l', 'e') || chars3(s, 'f', '6', '4') {
        Some(NumType::Double)
    } else {
        None
    }
}

fn num_type_from_text(name: &Vec<char>) -> (r: Option<NumType>)
    ensures
        r == num_type_of_text(name@),
{
    if name.len() == 2 {
        let a: char = name[0];
        let b: char = name[1];
        if a == 'i' && b == '8' {
            Some(NumType::Byte)
        } else if a == 'u' && b == '8' {
            Some(NumType::UByte)
        } else {
            None
        }
    } else if name.len() == 3 {
        let a: char = name[0];
        let b: char = name[1];
        let c: char = name[2];
        if a == 'i' && b == 'n' && c == 't' {
            Some(NumType::Int)
        } else if a == 'i' && b == '3' && c == '2' {
            Some(NumType::Int)
        } else if a == 'u' && b == '3' && c == '2' {
            Some(NumType::UInt)
        } else if a == 'i' && b == '6' && c == '4' {
            Some(NumType::Long)
        } else if a == 'u' && b == '6' && c == '4' {
            Some(NumType::ULong)
        } else if a == 'i' && b == '1' && c == '6' {
            Some(NumType::Short)
        } else if a == 'u' && b == '1' && c == '6' {
            Some(NumType::UShort)
        } else if a == 'f' && b == '3' && c == '2' {
            Some(NumType::Float)
        } else if a == 'f' && b == '6' && c == '4' {
            Some(NumType::Double)
        } else {
            None
        }
    } else if name.len() == 4 {
        let a: char = name[0];
        let b: char = name[1];
        let c: char = name[2];
        let d: char = name[3];
        if a == 'u' && b == 'i' && c == 'n' && d == 't' {
            Some(NumType::UInt)
        } else if a == 'l' && b == 'o' && c == 'n' && d == 'g' {
            Some(NumType::Long)
        } else if a == 'b' && b == 'y' && c == 't' && d == 'e' {
            Some(NumType::Byte)
        } else {
            None
        }
    } else if name.len() == 5 {
        let a: char = name[0];
        let b: char = name[1];
        let c: char = name[2];
        let d: char = name[3];
        let e: char = name[4];
        if a == 'u' && b == 'l' && c == 'o' && d == 'n' && e == 'g' {
            Some(NumType::ULong)
        } else if a == 'u' && b == 'b' && c == 'y' && d == 't' && e == 'e' {
            Some(NumType::UByte)
        } else if a == 's' && b == 'h' && c == 'o' && d == 'r' && e == 't' {
            Some(NumType::Short)
        } else if a == 'f' && b == 'l' && c == 'o' && d == 'a' && e == 't' {
            Some(NumType::Float)
        } else {
            None
        }
    } else if name.len() == 6 {
        let a: char = name[0];
        let b: char = name[1];
        let c: char = name[2];
        let d: char = name[3];
        let e: char = name[4];
        let f: char = name[5];
        if a == 'u' && b == 's' && c == 'h' && d == 'o' && e == 'r' && f == 't' {
            Some(NumType::UShort)
        } else if a == 'd' && b == 'o' && c == 'u' && d == 'b' && e == 'l' && f == 'e' {
            Some(NumType::Double)
        } else {
            None
        }
    } else {
        None
    }
}

/// The number type an `@` suffix selects, together with how many scalars
/// the suffix occupies (the `@` and the scanned name); `None` is an error.
pub open spec fn spec_num_type(s: Seq<char>) -> Option<(NumType, int)> {
    let n = count_lower_digits(s.drop_first());
    match num_type_of_text(s.subrange(1, 1 + n)) {
        Some(t) => Some((t, 1 + n)),
        None => None,
    }
}

/// Reads the `@type` suffix of a number: `@` and then the longest run of
/// lower-case letters and digits, which must name one of the supported
/// number types.
pub fn lex_number_type(iter: &mut Cursor<char>) -> (r: Result<NumType, AsonError>)
    requires
        old(iter)@.len() > 0,
        old(iter)@[0] == '@',
    ensures
        match r {
            Ok(t) => match spec_num_type(old(iter)@) {
                Some((st, n)) => t == st && final(iter)@ == old(iter)@.skip(n),
                None => false,
            },
            Err(_) => spec_num_type(old(iter)@) is None,
        },
{
    let ghost rest1 = old(iter)@.drop_first();
    iter.next();
    let mut name: Vec<char> = Vec::new();
    loop
        invariant
            name@.len() <= rest1.len(),
            iter@ == rest1.skip(name@.len() as int),
            name@ == rest1.take(name@.len() as int),
            count_lower_digits(rest1) == name@.len() + count_lower_digits(iter@),
        decreases iter@.len(),
    {
        let ghost pre = iter@;
        let advance: bool = match iter.peek(0) {
            Some(c) => lower_or_digit(*c),
            None => false,
        };
        if !advance {
            proof {
                assert(count_lower_digits(iter@) == 0);
                assert(old(iter)@.subrange(1, 1 + count_lower_digits(rest1)) =~= rest1.take(
                    count_lower_digits(rest1),
                ));
            }
            return match num_type_from_text(&name) {
                Some(t) => Ok(t),
                None => Err(AsonError::Message("Invalid number type.".to_owned())),
            };
        }
        let c: char = match iter.next() {
            Some(c) => c,
            None => {
                proof {
                    assert(false);
                }
                ' '
            },
        };
        proof {
            assert(rest1.skip(name@.len() as int).drop_first() =~= rest1.skip(
                name@.len() as int + 1,
            ));
            assert(rest1.take(name@.len() as int).push(rest1[name@.len() as int]) =~= rest1.take(
                name@.len() as int + 1,
            ));
        }
        name.push(c);
    }
}

/// The count of leading spaces and tabs and what follows them; scanning
/// off the end of the input is an error (string content must follow).
pub open spec fn spec_leading_ws(s: Seq<char>) -> Option<(int, Seq<char>)>
    decreases s.len(),
{
    if s.len() == 0 {
        None
    } else if s[0] == ' ' || s[0] == '\t' {
        match spec_leading_ws(s.drop_first()) {
            Some((n, r)) => Some((n + 1, r)),
            None => None,
        }
    } else {
        Some((0, s))
    }
}

pub proof fn lemma_leading_ws_len(s: Seq<char>)
    ensures
        match spec_leading_ws(s) {
            Some((n, r)) => 0 <= n && n + r.len() == s.len(),
            None => true,
        },
    decreases s.len(),
{
    if s.len() > 0 && (s[0] == ' ' || s[0] == '\t') {
        lemma_leading_ws_len(s.drop_first());
    }
}

/// Consumes the run of spaces and tabs at the head of a wrapped or
/// indented line and returns its width; the end of input here is an error.
pub fn consume_leading_whitespaces(iter: &mut Cursor<char>) -> (r: Result<usize, AsonError>)
    ensures
        match r {
            Ok(n) => spec_leading_ws(old(iter)@) == Some((n as int, final(iter)@)),
            Err(_) => spec_leading_ws(old(iter)@) is None,
        },
{
    let total: usize = iter.remaining();
    let mut count: usize = 0;
    loop
        invariant
            count + iter@.len() == total,
            total == old(iter)@.len(),
            match spec_leading_ws(iter@) {
                Some((n, r)) => spec_leading_ws(old(iter)@) == Some((count + n, r)),
                None => spec_leading_ws(old(iter)@) is None,
            },
        decreases iter@.len(),
    {
        let ghost pre = iter@;
        let step: bool = match iter.peek(0) {
            Some(c) => {
                if *c == ' ' || *c == '\t' {
                    true
                } else {
                    return Ok(count);
                }
            },
            None => {
                return Err(AsonError::Message("Expect the string content.".to_owned()));
            },
        };
        if step {
            iter.next();
            count = count + 1;
        }
    }
}

/// What remains after skipping at most `n` spaces or tabs.
pub open spec fn spec_skip_ws(s: Seq<char>, n: int) -> Seq<char>
    decreases n,
{
    if n <= 0 {
        s
    } else if s.len() > 0 && (s[0] == ' ' || s[0] == '\t') {
        spec_skip_ws(s.drop_first(), n - 1)
    } else {
        s
    }
}

pub proof fn lemma_skip_ws_len(s: Seq<char>, n: int)
    ensures
        spec_skip_ws(s, n).len() <= s.len(),
    decreases n,
{
    if n > 0 && s.len() > 0 && (s[0] == ' ' || s[0] == '\t') {
        lemma_skip_ws_len(s.drop_first(), n - 1);
    }
}

/// Skips up to `whitespaces` spaces or tabs: the common indentation that
/// an auto-trimmed block strips from each line.
pub fn skip_leading_whitespaces(iter: &mut Cursor<char>, whitespaces: usize)
    ensures
        final(iter)@ == spec_skip_ws(old(iter)@, whitespaces as int),
{
    let mut remaining: usize = whitespaces;
    loop
        invariant
            spec_skip_ws(old(iter)@, whitespaces as int) == spec_skip_ws(iter@, remaining as int),
        decreases remaining,
    {
        if remaining == 0 {
            return ;
        }
        let step: bool = match iter.peek(0) {
            Some(c) => *c == ' ' || *c == '\t',
            None => false,
        };
        if !step {
            return ;
        }
        iter.next();
        remaining = remaining - 1;
    }
}

/// The digits of a unicode escape and what follows the closing brace: at
/// most five hexadecimal digits before `}`; anything else is an error.
pub open spec fn spec_uni_digits(s: Seq<char>, acc: Seq<char>) -> Option<(Seq<char>, Seq<char>)>
    decreases s.len(),
{
    if s.len() == 0 {
        None
    } else if s[0] == '}' {
        Some((acc, s.drop_first()))
    } else if is_radix_digit(s[0], 16) {
        if acc.len() + 1 > 5 {
            None
        } else {
            spec_uni_digits(s.drop_first(), acc.push(s[0]))
        }
    } else {
        None
    }
}

pub proof fn lemma_uni_digits_len(s: Seq<char>, acc: Seq<char>)
    ensures
        match spec_uni_digits(s, acc) {
            Some((d, r)) => r.len() < s.len() && d.len() <= 5 && all_radix_digits(d, 16) || !(
            all_radix_digits(acc, 16) && acc.len() <= 5),
            None => true,
        },
    decreases s.len(),
{
    if s.len() > 0 && s[0] != '}' && is_radix_digit(s[0], 16) && acc.len() + 1 <= 5 {
        lemma_uni_digits_len(s.drop_first(), acc.push(s[0]));
        assert(forall|i: int|
            0 <= i < acc.len() + 1 && all_radix_digits(acc, 16) ==> is_radix_digit(
                #[trigger] acc.push(s[0])[i],
                16,
            ));
    }
}

/// The scalar value a unicode escape denotes and what follows it: `{`,
/// one to five hexadecimal digits naming a Unicode scalar value, `}`.
pub open spec fn spec_unescape_unicode(s: Seq<char>) -> Option<(char, Seq<char>)> {
    if s.len() == 0 || s[0] != '{' {
        None
    } else {
        match spec_uni_digits(s.drop_first(), Seq::empty()) {
            None => None,
            Some((digits, rest)) => {
                let v = radix_val(digits, 16);
                if digits.len() > 0 && 0 <= v <= 0x10ffff && vstd::utf8::is_scalar(v as u32) {
                    Some(((v as u32) as char, rest))
                } else {
                    None
                }
            },
        }
    }
}

pub proof fn lemma_unescape_unicode_len(s: Seq<char>)
    ensures
        match spec_unescape_unicode(s) {
            Some((_, r)) => r.len() < s.len(),
            None => true,
        },
{
    if s.len() > 0 && s[0] == '{' {
        lemma_uni_digits_len(s.drop_first(), Seq::empty());
    }
}

/// Reads the braced part of a unicode escape (the cursor stands right
/// after the `u`) and yields the denoted scalar value.
pub fn lex_string_unescape_unicode(iter: &mut Cursor<char>) -> (r: Result<char, AsonError>)
    ensures
        match r {
            Ok(c) => match spec_unescape_unicode(old(iter)@) {
                Some((sc, rest)) => c == sc && final(iter)@ == rest,
                None => false,
            },
            Err(_) => spec_unescape_unicode(old(iter)@) is None,
        },
{
    let opened: bool = match iter.next() {
        Some(c) => c == '{',
        None => false,
    };
    if !opened {
        return Err(
            AsonError::Message("Missing left brace for unicode escape sequence.".to_owned()),
        );
    }
    let ghost rest1 = old(iter)@.drop_first();
    let mut digits: Vec<char> = Vec::new();
    loop
        invariant
            spec_uni_digits(rest1, Seq::empty()) == spec_uni_digits(iter@, digits@),
            digits@.len() <= 5,
            all_radix_digits(digits@, 16),
        decreases iter@.len(),
    {
        let ghost pre = iter@;
        let ghost dpre = digits@;
        match iter.next() {
            None => {
                return Err(
                    AsonError::Message(
                        "Missing right brace for unicode escape sequence.".to_owned(),
                    ),
                );
            },
            Some(c) => {
                if c == '}' {
                    proof {
                        assert(spec_uni_digits(rest1, Seq::empty()) == Some((digits@, iter@)));
                    }
                    if digits.len() == 0 {
                        return Err(
                            AsonError::Message(
                                "A unicode escape needs at least one hex digit.".to_owned(),
                            ),
                        );
                    }
                    proof {
                        crate::numbers::lemma_radix_val_nonneg(digits@, 16);
                    }
                    return match crate::numbers::parse_radix_u64(&digits, 16) {
                        None => Err(AsonError::Message("Invalid unicode code point.".to_owned())),
                        Some(v) => {
                            if v > 0x10ffff {
                                Err(AsonError::Message("Invalid unicode code point.".to_owned()))
                            } else {
                                match char_from_u32(v as u32) {
                                    Some(uc) => {
                                        proof {
                                            vstd::utf8::char_u32_cast(uc, v as u32);
                                        }
                                        Ok(uc)
                                    },
                                    None => Err(
                                        AsonError::Message(
                                            "Invalid unicode code point.".to_owned(),
                                        ),
                                    ),
                                }
                            }
                        },
                    };
                } else if hex_digit(c) {
                    if digits.len() + 1 > 5 {
                        return Err(
                            AsonError::Message(
                                "The value of the unicode code point is too large.".to_owned(),
                            ),
                        );
                    }
                    digits.push(c);
                    proof {
                        assert(digits@ == dpre.push(c));
                        assert(spec_uni_digits(pre, dpre) == spec_uni_digits(iter@, digits@));
                        assert forall|i: int| 0 <= i < digits@.len() implies is_radix_digit(
                            #[trigger] digits@[i],
                            16,
                        ) by {
                            if i < dpre.len() {
                                assert(digits@[i] == dpre[i]);
                            } else {
                                assert(digits@[i] == c);
                            }
                        }
                    }
                } else {
                    return Err(
                        AsonError::Message(
                            "Invalid character for unicode escape sequence.".to_owned(),
                        ),
                    );
                }
            },
        }
    }
}

/// Whether a name is the keyword `Inf`.
pub open spec fn is_inf_name(name: Seq<char>) -> bool {
    chars3(name, 'I', 'n', 'f')
}

/// Whether a name is the keyword `NaN`.
pub open spec fn is_nan_name(name: Seq<char>) -> bool {
    chars3(name, 'N', 'a', 'N')
}

/// The identifier scan: identifier scalars extend the name, a bare `::`
/// marks a variant, and `Inf`/`NaN` may take one `@type` suffix; a
/// terminator or the end of input ends the scan, anything else is an
/// error. Yields the name, the variant mark, the suffix and the rest.
pub open spec fn spec_ident_scan(
    s: Seq<char>,
    name: Seq<char>,
    sep: bool,
    nty: Option<NumType>,
) -> Option<(Seq<char>, bool, Option<NumType>, Seq<char>)>
    decreases s.len(),
    via spec_ident_scan_dec
{
    if s.len() == 0 {
        Some((name, sep, nty, s))
    } else {
        let c = s[0];
        if is_ident_char(c) {
            spec_ident_scan(s.drop_first(), name.push(c), sep, nty)
        } else if c == ':' && s.len() >= 2 && s[1] == ':' {
            spec_ident_scan(s.skip(2), name + seq![':', ':'], true, nty)
        } else if c == '@' && (is_inf_name(name) || is_nan_name(name)) && nty is None {
            match spec_num_type(s) {
                Some((t, n)) => spec_ident_scan(s.skip(n), name, sep, Some(t)),
                None => None,
            }
        } else if is_terminator(c) {
            Some((name, sep, nty, s))
        } else {
            None
        }
    }
}

#[via_fn]
proof fn spec_ident_scan_dec(s: Seq<char>, name: Seq<char>, sep: bool, nty: Option<NumType>) {
    if s.len() > 0 {
        lemma_count_lower_digits(s.drop_first());
    }
}

pub proof fn lemma_ident_scan_len(s: Seq<char>, name: Seq<char>, sep: bool, nty: Option<NumType>)
    ensures
        match spec_ident_scan(s, name, sep, nty) {
            Some((_, _, _, r)) => r.len() <= s.len(),
            None => true,
        },
    decreases s.len(),
{
    if s.len() > 0 {
        let c = s[0];
        if is_ident_char(c) {
            lemma_ident_scan_len(s.drop_first(), name.push(c), sep, nty);
        } else if c == ':' && s.len() >= 2 && s[1] == ':' {
            lemma_ident_scan_len(s.skip(2), name + seq![':', ':'], true, nty);
        } else if c == '@' && (is_inf_name(name) || is_nan_name(name)) && nty is None {
            lemma_count_lower_digits(s.drop_first());
            match spec_num_type(s) {
                Some((t, n)) => {
                    lemma_ident_scan_len(s.skip(n), name, sep, Some(t));
                },
                None => {},
            }
        }
    }
}

/// The token a finished identifier scan makes: a variant name when `::`
/// was seen, the boolean keywords, `Inf`/`NaN` at a floating width, or an
/// identifier; `Inf`/`NaN` at any other width is an error.
pub open spec fn spec_ident_token(name: Seq<char>, sep: bool, nty: Option<NumType>) -> Option<
    TokenView,
> {
    if sep {
        Some(TokenView::Variant(name))
    } else if chars4(name, 't', 'r', 'u', 'e') {
        Some(TokenView::Boolean(true))
    } else if chars5(name, 'f', 'a', 'l', 's', 'e') {
        Some(TokenView::Boolean(false))
    } else if is_nan_name(name) {
        match nty {
            None => Some(TokenView::Number(NumberLiteral::Float(F32_NAN_BITS))),
            Some(t) => {
                if t is Float {
                    Some(TokenView::Number(NumberLiteral::Float(F32_NAN_BITS)))
                } else if t is Double {
                    Some(TokenView::Number(NumberLiteral::Double(F64_NAN_BITS)))
                } else {
                    None
                }
            },
        }
    } else if is_inf_name(name) {
        match nty {
            None => Some(TokenView::Number(NumberLiteral::Float(F32_INFINITY_BITS))),
            Some(t) => {
                if t is Float {
                    Some(TokenView::Number(NumberLiteral::Float(F32_INFINITY_BITS)))
                } else if t is Double {
                    Some(TokenView::Number(NumberLiteral::Double(F64_INFINITY_BITS)))
                } else {
                    None
                }
            },
        }
    } else {
        Some(TokenView::Identifier(name))
    }
}

/// An identifier, keyword, variant or `Inf`/`NaN` token and what follows.
pub open spec fn spec_lex_identifier(s: Seq<char>) -> Option<(TokenView, Seq<char>)> {
    match spec_ident_scan(s, Seq::empty(), false, None) {
        None => None,
        Some((name, sep, nty, rest)) => match spec_ident_token(name, sep, nty) {
            Some(tv) => Some((tv, rest)),
            None => None,
        },
    }
}

fn name_is(name: &Vec<char>, a: char, b: char, c: char) -> (r: bool)
    ensures
        r == chars3(name@, a, b, c),
{
    name.len() == 3 && name[0] == a && name[1] == b && name[2] == c
}

fn ident_token(name: Vec<char>, sep: bool, nty: Option<NumType>) -> (r: Result<Token, AsonError>)
    ensures
        match r {
            Ok(t) => spec_ident_token(name@, sep, nty) == Some(t@),
            Err(_) => spec_ident_token(name@, sep, nty) is None,
        },
{
    if sep {
        return Ok(Token::Variant(name));
    }
    if name.len() == 4 && name[0] == 't' && name[1] == 'r' && name[2] == 'u' && name[3] == 'e' {
        return Ok(Token::Boolean(true));
    }
    if name.len() == 5 && name[0] == 'f' && name[1] == 'a' && name[2] == 'l' && name[3] == 's'
        && name[4] == 'e' {
        return Ok(Token::Boolean(false));
    }
    if name_is(&name, 'N', 'a', 'N') {
        return match nty {
            None => Ok(Token::Number(NumberLiteral::Float(F32_NAN_BITS))),
            Some(t) => {
                if matches!(t, NumType::Float) {
                    Ok(Token::Number(NumberLiteral::Float(F32_NAN_BITS)))
                } else if matches!(t, NumType::Double) {
                    Ok(Token::Number(NumberLiteral::Double(F64_NAN_BITS)))
                } else {
                    err_token("Invalid data type for NaN.")
                }
            },
        };
    }
    if name_is(&name, 'I', 'n', 'f') {
        return match nty {
            None => Ok(Token::Number(NumberLiteral::Float(F32_INFINITY_BITS))),
            Some(t) => {
                if matches!(t, NumType::Float) {
                    Ok(Token::Number(NumberLiteral::Float(F32_INFINITY_BITS)))
                } else if matches!(t, NumType::Double) {
                    Ok(Token::Number(NumberLiteral::Double(F64_INFINITY_BITS)))
                } else {
                    err_token("Invalid data type for Inf.")
                }
            },
        };
    }
    Ok(Token::Identifier(name))
}

/// Reads an identifier, keyword, variant name or `Inf`/`NaN` literal.
pub fn lex_identifier_or_keyword(iter: &mut Cursor<char>) -> (r: Result<Token, AsonError>)
    ensures
        match r {
            Ok(t) => match spec_lex_identifier(old(iter)@) {
                Some((tv, rest)) => t@ == tv && final(iter)@ == rest,
                None => false,
            },
            Err(_) => spec_lex_identifier(old(iter)@) is None,
        },
{
    let mut name: Vec<char> = Vec::new();
    let mut sep: bool = false;
    let mut nty: Option<NumType> = None;
    loop
        invariant
            spec_ident_scan(old(iter)@, Seq::empty(), false, None) == spec_ident_scan(
                iter@,
                name@,
                sep,
                nty,
            ),
        decreases iter@.len(),
    {
        let ghost pre = iter@;
        let ghost npre = name@;
        let c: char = match iter.peek(0) {
            None => {
                return ident_token(name, sep, nty);
            },
            Some(c) => *c,
        };
        if ident_char(c) {
            iter.next();
            name.push(c);
        } else if c == ':' && iter.equals(1, ':') {
            iter.next();
            iter.next();
            name.push(':');
            name.push(':');
            sep = true;
            proof {
                assert(pre.drop_first().drop_first() =~= pre.skip(2));
                assert(npre.push(':').push(':') =~= npre + seq![':', ':']);
            }
        } else if c == '@' {
            let inf_or_nan: bool = name_is(&name, 'I', 'n', 'f') || name_is(&name, 'N', 'a', 'N');
            if inf_or_nan && nty.is_none() {
                proof {
                    lemma_count_lower_digits(pre.drop_first());
                }
                match lex_number_type(iter) {
                    Ok(t) => {
                        nty = Some(t);
                    },
                    Err(e) => {
                        return Err(e);
                    },
                }
            } else {
                return err_token("Invalid char for identifier.");
            }
        } else if terminator(c) {
            return ident_token(name, sep, nty);
        } else {
            return err_token("Invalid char for identifier.");
        }
    }
}

/// What a decimal number scan collects: the digits-and-marks text, the
/// unit prefix and whether it was the binary form, whether a point or an
/// exponent was seen, the selected type, and the rest of the input.
pub struct DecScan {
    pub num: Seq<char>,
    pub prefix: Option<char>,
    pub binary: bool,
    pub point: bool,
    pub exp: bool,
    pub ty: Option<NumType>,
    pub rest: Seq<char>,
}

/// The decimal number scan. Digits extend the text and `_` is ignored; one
/// point and one exponent (with an optional sign) may appear; one `@type`
/// suffix and one unit prefix (binary when `i` or `B` follows) may appear;
/// a terminator or the end of input ends the scan.
pub open spec fn spec_dec_scan(
    s: Seq<char>,
    num: Seq<char>,
    prefix: Option<char>,
    binary: bool,
    point: bool,
    exp: bool,
    ty: Option<NumType>,
) -> Option<DecScan>
    decreases s.len(),
    via spec_dec_scan_dec
{
    if s.len() == 0 {
        Some(DecScan { num, prefix, binary, point, exp, ty, rest: s })
    } else {
        let c = s[0];
        if is_radix_digit(c, 10) {
            spec_dec_scan(s.drop_first(), num.push(c), prefix, binary, point, exp, ty)
        } else if c == '_' {
            spec_dec_scan(s.drop_first(), num, prefix, binary, point, exp, ty)
        } else if c == '.' && !point {
            spec_dec_scan(s.drop_first(), num.push('.'), prefix, binary, true, exp, ty)
        } else if c == 'e' && !exp {
            if s.len() >= 2 && s[1] == '-' {
                spec_dec_scan(s.skip(2), num + seq!['e', '-'], prefix, binary, point, true, ty)
            } else if s.len() >= 2 && s[1] == '+' {
                spec_dec_scan(s.skip(2), num + seq!['e', '+'], prefix, binary, point, true, ty)
            } else {
                spec_dec_scan(s.drop_first(), num.push('e'), prefix, binary, point, true, ty)
            }
        } else if c == '@' && ty is None {
            match spec_num_type(s) {
                Some((t, n)) => spec_dec_scan(s.skip(n), num, prefix, binary, point, exp, Some(t)),
                None => None,
            }
        } else if is_integer_prefix(c) && prefix is None {
            if s.len() >= 2 && (s[1] == 'i' || s[1] == 'B') {
                spec_dec_scan(s.skip(2), num, Some(c), true, point, exp, ty)
            } else {
                spec_dec_scan(s.drop_first(), num, Some(c), binary, point, exp, ty)
            }
        } else if is_fraction_prefix(c) && prefix is None {
            spec_dec_scan(s.drop_first(), num, Some(c), binary, point, exp, ty)
        } else if is_terminator(c) {
            Some(DecScan { num, prefix, binary, point, exp, ty, rest: s })
        } else {
            None
        }
    }
}

#[via_fn]
proof fn spec_dec_scan_dec(
    s: Seq<char>,
    num: Seq<char>,
    prefix: Option<char>,
    binary: bool,
    point: bool,
    exp: bool,
    ty: Option<NumType>,
) {
    if s.len() > 0 {
        lemma_count_lower_digits(s.drop_first());
    }
}

/// A decimal number token and what follows it: the scan, the bans on a
/// trailing point or exponent mark, then the decimal rule table.
pub open spec fn spec_lex_number_decimal(s: Seq<char>) -> Option<(TokenView, Seq<char>)> {
    match spec_dec_scan(s, Seq::empty(), None, false, false, false, None) {
        None => None,
        Some(st) => {
            if st.num.len() > 0 && st.num.last() == '.' {
                None
            } else if st.num.len() > 0 && st.num.last() == 'e' {
                None
            } else {
                match crate::numbers::spec_decimal_literal(
                    st.num,
                    st.prefix,
                    st.binary,
                    st.point || st.exp,
                    st.ty,
                ) {
                    None => None,
                    Some(lit) => Some((TokenView::Number(lit), st.rest)),
                }
            }
        },
    }
}

/// Law: a decimal number token never carries a NaN or an infinite
/// floating-point literal; a value that would round to an infinity is an
/// overflow error, and NaN enters the token stream only through the `NaN`
/// keyword.
pub proof fn lemma_lex_number_decimal_floats_finite(s: Seq<char>)
    ensures
        match spec_lex_number_decimal(s) {
            Some((t, _)) => match t {
                TokenView::Number(lit) => match lit {
                    NumberLiteral::Float(b) => !crate::token::spec_f32_is_nan(b)
                        && !crate::token::spec_f32_is_infinite(b),
                    NumberLiteral::Double(b) => !crate::token::spec_f64_is_nan(b)
                        && !crate::token::spec_f64_is_infinite(b),
                    _ => true,
                },
                _ => true,
            },
            None => true,
        },
{
    match spec_dec_scan(s, Seq::empty(), None, false, false, false, None) {
        None => {},
        Some(st) => {
            crate::numbers::lemma_decimal_literal_floats_finite(
                st.num,
                st.prefix,
                st.binary,
                st.point || st.exp,
                st.ty,
            );
        },
    }
}

/// Reads a decimal number literal: digits with separators, an optional
/// fraction and exponent, an optional unit prefix, and an optional width.
pub fn lex_number_decimal(iter: &mut Cursor<char>) -> (r: Result<Token, AsonError>)
    ensures
        match r {
            Ok(t) => match spec_lex_number_decimal(old(iter)@) {
                Some((tv, rest)) => t@ == tv && final(iter)@ == rest,
                None => false,
            },
            Err(_) => spec_lex_number_decimal(old(iter)@) is None,
        },
{
    let mut num: Vec<char> = Vec::new();
    let mut prefix: Option<char> = None;
    let mut binary: bool = false;
    let mut point: bool = false;
    let mut exp: bool = false;
    let mut ty: Option<NumType> = None;
    loop
        invariant
            spec_dec_scan(old(iter)@, Seq::empty(), None, false, false, false, None)
                == spec_dec_scan(iter@, num@, prefix, binary, point, exp, ty),
            match prefix {
                Some(c) => crate::numbers::is_integer_prefix(c)
                    || crate::numbers::is_fraction_prefix(c),
                None => true,
            },
        decreases iter@.len(),
    {
        let ghost pre = iter@;
        let ghost npre = num@;
        let done: bool = match iter.peek(0) {
            None => true,
            Some(c) => terminator(*c),
        };
        if done {
            if num.len() > 0 {
                let last: char = num[num.len() - 1];
                if last == '.' {
                    return err_token("A number can not end with a point.");
                }
                if last == 'e' {
                    return err_token("A number can not end with an exponent mark.");
                }
            }
            let point_or_exp: bool = point || exp;
            return match crate::numbers::make_decimal_literal(&num, prefix, binary, point_or_exp, ty) {
                Ok(lit) => Ok(Token::Number(lit)),
                Err(e) => Err(e),
            };
        }
        let c: char = match iter.peek(0) {
            Some(c) => *c,
            None => {
                proof {
                    assert(false);
                }
                ' '
            },
        };
        if dec_digit(c) {
            iter.next();
            num.push(c);
        } else if c == '_' {
            iter.next();
        } else if c == '.' && !point {
            iter.next();
            num.push('.');
            point = true;
        } else if c == 'e' && !exp {
            exp = true;
            if iter.equals(1, '-') {
                iter.next();
                iter.next();
                num.push('e');
                num.push('-');
                proof {
                    assert(pre.drop_first().drop_first() =~= pre.skip(2));
                    assert(npre.push('e').push('-') =~= npre + seq!['e', '-']);
                }
            } else if iter.equals(1, '+') {
                iter.next();
                iter.next();
                num.push('e');
                num.push('+');
                proof {
                    assert(pre.drop_first().drop_first() =~= pre.skip(2));
                    assert(npre.push('e').push('+') =~= npre + seq!['e', '+']);
                }
            } else {
                iter.next();
                num.push('e');
            }
        } else if c == '@' && ty.is_none() {
            proof {
                lemma_count_lower_digits(pre.drop_first());
            }
            match lex_number_type(iter) {
                Ok(t) => {
                    ty = Some(t);
                },
                Err(e) => {
                    return Err(e);
                },
            }
        } else if (c == 'E' || c == 'P' || c == 'T' || c == 'G' || c == 'M' || c == 'K')
            && prefix.is_none() {
            if iter.equals(1, 'i') || iter.equals(1, 'B') {
                iter.next();
                iter.next();
                prefix = Some(c);
                binary = true;
                proof {
                    assert(pre.drop_first().drop_first() =~= pre.skip(2));
                }
            } else {
                iter.next();
                prefix = Some(c);
            }
        } else if (c == 'm' || c == 'u' || c == 'n' || c == 'p' || c == 'f' || c == 'a')
            && prefix.is_none() {
            iter.next();
            prefix = Some(c);
        } else {
            return err_token("Invalid char for decimal number.");
        }
    }
}

/// What a hexadecimal number scan collects.
pub struct HexScan {
    pub num: Seq<char>,
    pub point: bool,
    pub exp: bool,
    pub ty: Option<NumType>,
    pub rest: Seq<char>,
}

/// The hexadecimal number scan: hex digits with `_` separators, one point
/// and one binary exponent (`p`, optionally signed) for the float form,
/// and one `@type` suffix.
pub open spec fn spec_hex_scan(
    s: Seq<char>,
    num: Seq<char>,
    point: bool,
    exp: bool,
    ty: Option<NumType>,
) -> Option<HexScan>
    decreases s.len(),
    via spec_hex_scan_dec
{
    if s.len() == 0 {
        Some(HexScan { num, point, exp, ty, rest: s })
    } else {
        let c = s[0];
        if is_radix_digit(c, 16) {
            spec_hex_scan(s.drop_first(), num.push(c), point, exp, ty)
        } else if c == '_' {
            spec_hex_scan(s.drop_first(), num, point, exp, ty)
        } else if c == '.' && !point {
            spec_hex_scan(s.drop_first(), num.push('.'), true, exp, ty)
        } else if c == 'p' && !exp {
            if s.len() >= 2 && s[1] == '-' {
                spec_hex_scan(s.skip(2), num + seq!['p', '-'], point, true, ty)
            } else if s.len() >= 2 && s[1] == '+' {
                spec_hex_scan(s.skip(2), num + seq!['p', '+'], point, true, ty)
            } else {
                spec_hex_scan(s.drop_first(), num.push('p'), point, true, ty)
            }
        } else if c == '@' && ty is None {
            match spec_num_type(s) {
                Some((t, n)) => spec_hex_scan(s.skip(n), num, point, exp, Some(t)),
                None => None,
            }
        } else if is_terminator(c) {
            Some(HexScan { num, point, exp, ty, rest: s })
        } else {
            None
        }
    }
}

#[via_fn]
proof fn spec_hex_scan_dec(
    s: Seq<char>,
    num: Seq<char>,
    point: bool,
    exp: bool,
    ty: Option<NumType>,
) {
    if s.len() > 0 {
        lemma_count_lower_digits(s.drop_first());
    }
}

/// A hexadecimal number token and what follows it: the scan over the text
/// after `0x`, then the hexadecimal rule table.
pub open spec fn spec_lex_number_hex(s: Seq<char>) -> Option<(TokenView, Seq<char>)> {
    match spec_hex_scan(s.skip(2), Seq::empty(), false, false, None) {
        None => None,
        Some(st) => match crate::numbers::spec_hex_literal(st.num, st.point || st.exp, st.ty) {
            None => None,
            Some(lit) => Some((TokenView::Number(lit), st.rest)),
        },
    }
}

/// Reads a hexadecimal number literal, integer or float form.
pub fn lex_number_hex(iter: &mut Cursor<char>) -> (r: Result<Token, AsonError>)
    requires
        old(iter)@.len() >= 2,
        old(iter)@[0] == '0',
        old(iter)@[1] == 'x',
    ensures
        match r {
            Ok(t) => match spec_lex_number_hex(old(iter)@) {
                Some((tv, rest)) => t@ == tv && final(iter)@ == rest,
                None => false,
            },
            Err(_) => spec_lex_number_hex(old(iter)@) is None,
        },
{
    iter.next();
    iter.next();
    let ghost rest0 = old(iter)@.skip(2);
    proof {
        assert(iter@ =~= rest0);
    }
    let mut num: Vec<char> = Vec::new();
    let mut point: bool = false;
    let mut exp: bool = false;
    let mut ty: Option<NumType> = None;
    loop
        invariant
            spec_hex_scan(rest0, Seq::empty(), false, false, None) == spec_hex_scan(
                iter@,
                num@,
                point,
                exp,
                ty,
            ),
        decreases iter@.len(),
    {
        let ghost pre = iter@;
        let ghost npre = num@;
        let done: bool = match iter.peek(0) {
            None => true,
            Some(c) => terminator(*c),
        };
        if done {
            let point_or_exp: bool = point || exp;
            return match crate::numbers::make_hex_literal(&num, point_or_exp, ty) {
                Ok(lit) => Ok(Token::Number(lit)),
                Err(e) => Err(e),
            };
        }
        let c: char = match iter.peek(0) {
            Some(c) => *c,
            None => {
                proof {
                    assert(false);
                }
                ' '
            },
        };
        if hex_digit(c) {
            iter.next();
            num.push(c);
        } else if c == '_' {
            iter.next();
        } else if c == '.' && !point {
            iter.next();
            num.push('.');
            point = true;
        } else if c == 'p' && !exp {
            exp = true;
            if iter.equals(1, '-') {
                iter.next();
                iter.next();
                num.push('p');
                num.push('-');
                proof {
                    assert(pre.drop_first().drop_first() =~= pre.skip(2));
                    assert(npre.push('p').push('-') =~= npre + seq!['p', '-']);
                }
            } else if iter.equals(1, '+') {
                iter.next();
                iter.next();
                num.push('p');
                num.push('+');
                proof {
                    assert(pre.drop_first().drop_first() =~= pre.skip(2));
                    assert(npre.push('p').push('+') =~= npre + seq!['p', '+']);
                }
            } else {
                iter.next();
                num.push('p');
            }
        } else if c == '@' && ty.is_none() {
            proof {
                lemma_count_lower_digits(pre.drop_first());
            }
            match lex_number_type(iter) {
                Ok(t) => {
                    ty = Some(t);
                },
                Err(e) => {
                    return Err(e);
                },
            }
        } else {
            return err_token("Invalid char for hexadecimal number.");
        }
    }
}

/// The binary number scan: binary digits with `_` separators and one
/// `@type` suffix; there is no float form.
pub open spec fn spec_bin_scan(s: Seq<char>, num: Seq<char>, ty: Option<NumType>) -> Option<
    (Seq<char>, Option<NumType>, Seq<char>),
>
    decreases s.len(),
    via spec_bin_scan_dec
{
    if s.len() == 0 {
        Some((num, ty, s))
    } else {
        let c = s[0];
        if c == '0' || c == '1' {
            spec_bin_scan(s.drop_first(), num.push(c), ty)
        } else if c == '_' {
            spec_bin_scan(s.drop_first(), num, ty)
        } else if c == '@' && ty is None {
            match spec_num_type(s) {
                Some((t, n)) => spec_bin_scan(s.skip(n), num, Some(t)),
                None => None,
            }
        } else if is_terminator(c) {
            Some((num, ty, s))
        } else {
            None
        }
    }
}

#[via_fn]
proof fn spec_bin_scan_dec(s: Seq<char>, num: Seq<char>, ty: Option<NumType>) {
    if s.len() > 0 {
        lemma_count_lower_digits(s.drop_first());
    }
}

/// A binary number token and what follows it: the scan over the text
/// after `0b`, then the binary rule table.
pub open spec fn spec_lex_number_binary(s: Seq<char>) -> Option<(TokenView, Seq<char>)> {
    match spec_bin_scan(s.skip(2), Seq::empty(), None) {
        None => None,
        Some((num, ty, rest)) => match crate::numbers::spec_binary_literal(num, ty) {
            None => None,
            Some(lit) => Some((TokenView::Number(lit), rest)),
        },
    }
}

/// Reads a binary number literal.
pub fn lex_number_binary(iter: &mut Cursor<char>) -> (r: Result<Token, AsonError>)
    requires
        old(iter)@.len() >= 2,
        old(iter)@[0] == '0',
        old(iter)@[1] == 'b',
    ensures
        match r {
            Ok(t) => match spec_lex_number_binary(old(iter)@) {
                Some((tv, rest)) => t@ == tv && final(iter)@ == rest,
                None => false,
            },
            Err(_) => spec_lex_number_binary(old(iter)@) is None,
        },
{
    iter.next();
    iter.next();
    let ghost rest0 = old(iter)@.skip(2);
    proof {
        assert(iter@ =~= rest0);
    }
    let mut num: Vec<char> = Vec::new();
    let mut ty: Option<NumType> = None;
    loop
        invariant
            spec_bin_scan(rest0, Seq::empty(), None) == spec_bin_scan(iter@, num@, ty),
        decreases iter@.len(),
    {
        let ghost pre = iter@;
        let done: bool = match iter.peek(0) {
            None => true,
            Some(c) => terminator(*c),
        };
        if done {
            return match crate::numbers::make_binary_literal(&num, ty) {
                Ok(lit) => Ok(Token::Number(lit)),
                Err(e) => Err(e),
            };
        }
        let c: char = match iter.peek(0) {
            Some(c) => *c,
            None => {
                proof {
                    assert(false);
                }
                ' '
            },
        };
        if c == '0' || c == '1' {
            iter.next();
            num.push(c);
        } else if c == '_' {
            iter.next();
        } else if c == '@' && ty.is_none() {
            proof {
                lemma_count_lower_digits(pre.drop_first());
            }
            match lex_number_type(iter) {
                Ok(t) => {
                    ty = Some(t);
                },
                Err(e) => {
                    return Err(e);
                },
            }
        } else {
            return err_token("Invalid char for binary number.");
        }
    }
}

/// A number token and what follows it: `0b` selects the binary form, `0x`
/// the hexadecimal form, anything else the decimal form.
pub open spec fn spec_lex_number(s: Seq<char>) -> Option<(TokenView, Seq<char>)> {
    if s.len() >= 2 && s[0] == '0' && s[1] == 'b' {
        spec_lex_number_binary(s)
    } else if s.len() >= 2 && s[0] == '0' && s[1] == 'x' {
        spec_lex_number_hex(s)
    } else {
        spec_lex_number_decimal(s)
    }
}

pub proof fn lemma_dec_scan_len(
    s: Seq<char>,
    num: Seq<char>,
    prefix: Option<char>,
    binary: bool,
    point: bool,
    exp: bool,
    ty: Option<NumType>,
)
    ensures
        match spec_dec_scan(s, num, prefix, binary, point, exp, ty) {
            Some(st) => st.rest.len() <= s.len(),
            None => true,
        },
    decreases s.len(),
{
    if s.len() > 0 {
        let c = s[0];
        if is_radix_digit(c, 10) {
            lemma_dec_scan_len(s.drop_first(), num.push(c), prefix, binary, point, exp, ty);
        } else if c == '_' {
            lemma_dec_scan_len(s.drop_first(), num, prefix, binary, point, exp, ty);
        } else if c == '.' && !point {
            lemma_dec_scan_len(s.drop_first(), num.push('.'), prefix, binary, true, exp, ty);
        } else if c == 'e' && !exp {
            if s.len() >= 2 && s[1] == '-' {
                lemma_dec_scan_len(s.skip(2), num + seq!['e', '-'], prefix, binary, point, true, ty);
            } else if s.len() >= 2 && s[1] == '+' {
                lemma_dec_scan_len(s.skip(2), num + seq!['e', '+'], prefix, binary, point, true, ty);
            } else {
                lemma_dec_scan_len(s.drop_first(), num.push('e'), prefix, binary, point, true, ty);
            }
        } else if c == '@' && ty is None {
            lemma_count_lower_digits(s.drop_first());
            match spec_num_type(s) {
                Some((t, n)) => {
                    lemma_dec_scan_len(s.skip(n), num, prefix, binary, point, exp, Some(t));
                },
                None => {},
            }
        } else if is_integer_prefix(c) && prefix is None {
            if s.len() >= 2 && (s[1] == 'i' || s[1] == 'B') {
                lemma_dec_scan_len(s.skip(2), num, Some(c), true, point, exp, ty);
            } else {
                lemma_dec_scan_len(s.drop_first(), num, Some(c), binary, point, exp, ty);
            }
        } else if is_fraction_prefix(c) && prefix is None {
            lemma_dec_scan_len(s.drop_first(), num, Some(c), binary, point, exp, ty);
        }
    }
}

pub proof fn lemma_hex_scan_len(
    s: Seq<char>,
    num: Seq<char>,
    point: bool,
    exp: bool,
    ty: Option<NumType>,
)
    ensures
        match spec_hex_scan(s, num, point, exp, ty) {
            Some(st) => st.rest.len() <= s.len(),
            None => true,
        },
    decreases s.len(),
{
    if s.len() > 0 {
        let c = s[0];
        if is_radix_digit(c, 16) {
            lemma_hex_scan_len(s.drop_first(), num.push(c), point, exp, ty);
        } else if c == '_' {
            lemma_hex_scan_len(s.drop_first(), num, point, exp, ty);
        } else if c == '.' && !point {
            lemma_hex_scan_len(s.drop_first(), num.push('.'), true, exp, ty);
        } else if c == 'p' && !exp {
            if s.len() >= 2 && s[1] == '-' {
                lemma_hex_scan_len(s.skip(2), num + seq!['p', '-'], point, true, ty);
            } else if s.len() >= 2 && s[1] == '+' {
                lemma_hex_scan_len(s.skip(2), num + seq!['p', '+'], point, true, ty);
            } else {
                lemma_hex_scan_len(s.drop_first(), num.push('p'), point, true, ty);
            }
        } else if c == '@' && ty is None {
            lemma_count_lower_digits(s.drop_first());
            match spec_num_type(s) {
                Some((t, n)) => {
                    lemma_hex_scan_len(s.skip(n), num, point, exp, Some(t));
                },
                None => {},
            }
        }
    }
}

pub proof fn lemma_bin_scan_len(s: Seq<char>, num: Seq<char>, ty: Option<NumType>)
    ensures
        match spec_bin_scan(s, num, ty) {
            Some((_, _, r)) => r.len() <= s.len(),
            None => true,
        },
    decreases s.len(),
{
    if s.len() > 0 {
        let c = s[0];
        if c == '0' || c == '1' {
            lemma_bin_scan_len(s.drop_first(), num.push(c), ty);
        } else if c == '_' {
            lemma_bin_scan_len(s.drop_first(), num, ty);
        } else if c == '@' && ty is None {
            lemma_count_lower_digits(s.drop_first());
            match spec_num_type(s) {
                Some((t, n)) => {
                    lemma_bin_scan_len(s.skip(n), num, Some(t));
                },
                None => {},
            }
        }
    }
}

/// A number token never outlasts its text.
pub proof fn lemma_lex_number_len(s: Seq<char>)
    requires
        s.len() > 0,
        is_radix_digit(s[0], 10),
    ensures
        match spec_lex_number(s) {
            Some((_, r)) => r.len() < s.len(),
            None => true,
        },
{
    if s.len() >= 2 && s[0] == '0' && (s[1] == 'b' || s[1] == 'x') {
        lemma_bin_scan_len(s.skip(2), Seq::empty(), None);
        lemma_hex_scan_len(s.skip(2), Seq::empty(), false, false, None);
    } else {
        assert(Seq::<char>::empty().push(s[0]) =~= seq![s[0]]);
        lemma_dec_scan_len(s.drop_first(), seq![s[0]], None, false, false, false, None);
    }
}

/// Reads a number literal of any base.
pub fn lex_number(iter: &mut Cursor<char>) -> (r: Result<Token, AsonError>)
    ensures
        match r {
            Ok(t) => match spec_lex_number(old(iter)@) {
                Some((tv, rest)) => t@ == tv && final(iter)@ == rest,
                None => false,
            },
            Err(_) => spec_lex_number(old(iter)@) is None,
        },
{
    if iter.equals(0, '0') && iter.equals(1, 'b') {
        lex_number_binary(iter)
    } else if iter.equals(0, '0') && iter.equals(1, 'x') {
        lex_number_hex(iter)
    } else {
        lex_number_decimal(iter)
    }
}

/// How an accumulating scan relates to its mirror: what the mirror yields
/// for the original input is the accumulator plus what it yields for the
/// input that remains.
pub open spec fn scan_cont(
    orig: Option<(Seq<char>, Seq<char>)>,
    acc: Seq<char>,
    cur: Option<(Seq<char>, Seq<char>)>,
) -> bool {
    match cur {
        None => orig is None,
        Some((c, r)) => orig == Some((acc + c, r)),
    }
}

/// The body of a line comment: everything up to the line break or the end
/// of input; the terminating break belongs to the comment.
pub open spec fn spec_line_body(s: Seq<char>) -> (Seq<char>, Seq<char>)
    decreases s.len(),
{
    if s.len() == 0 {
        (Seq::empty(), Seq::empty())
    } else if s[0] == '\n' {
        (Seq::empty(), s.drop_first())
    } else if s[0] == '\r' && s.len() >= 2 && s[1] == '\n' {
        (Seq::empty(), s.skip(2))
    } else {
        let (c, r) = spec_line_body(s.drop_first());
        (seq![s[0]] + c, r)
    }
}

pub proof fn lemma_line_body_len(s: Seq<char>)
    ensures
        spec_line_body(s).1.len() <= s.len(),
    decreases s.len(),
{
    if s.len() > 0 && !(s[0] == '\n') && !(s[0] == '\r' && s.len() >= 2 && s[1] == '\n') {
        lemma_line_body_len(s.drop_first());
    }
}

/// A line comment token and what follows it.
pub open spec fn spec_lex_line_comment(s: Seq<char>) -> Option<(TokenView, Seq<char>)> {
    let (c, r) = spec_line_body(s.skip(2));
    Some((TokenView::Comment(CommentTokenView::Line(c)), r))
}

/// Reads a line comment: both slashes, the text, and the line break that
/// ends it, so no separate NewLine token follows.
pub fn lex_line_comment(iter: &mut Cursor<char>) -> (r: Result<Token, AsonError>)
    requires
        old(iter)@.len() >= 2,
        old(iter)@[0] == '/',
        old(iter)@[1] == '/',
    ensures
        match r {
            Ok(t) => match spec_lex_line_comment(old(iter)@) {
                Some((tv, rest)) => t@ == tv && final(iter)@ == rest,
                None => false,
            },
            Err(_) => spec_lex_line_comment(old(iter)@) is None,
        },
{
    iter.next();
    iter.next();
    let ghost rest0 = old(iter)@.skip(2);
    let mut acc: Vec<char> = Vec::new();
    proof {
        assert(iter@ =~= rest0);
        assert(Seq::<char>::empty() + spec_line_body(rest0).0 =~= spec_line_body(rest0).0);
    }
    loop
        invariant
            spec_line_body(rest0) == (acc@ + spec_line_body(iter@).0, spec_line_body(iter@).1),
        decreases iter@.len(),
    {
        let ghost pre = iter@;
        let ghost apre = acc@;
        match iter.next() {
            None => {
                proof {
                    assert(acc@ + Seq::<char>::empty() =~= acc@);
                }
                return Ok(Token::Comment(CommentToken::Line(acc)));
            },
            Some(c) => {
                if c == '\n' {
                    proof {
                        assert(acc@ + Seq::<char>::empty() =~= acc@);
                    }
                    return Ok(Token::Comment(CommentToken::Line(acc)));
                } else if c == '\r' && iter.equals(0, '\n') {
                    iter.next();
                    proof {
                        assert(acc@ + Seq::<char>::empty() =~= acc@);
                        assert(pre.drop_first().drop_first() =~= pre.skip(2));
                    }
                    return Ok(Token::Comment(CommentToken::Line(acc)));
                } else {
                    acc.push(c);
                    proof {
                        assert(apre + (seq![c] + spec_line_body(iter@).0) =~= acc@
                            + spec_line_body(iter@).0);
                    }
                }
            },
        }
    }
}

/// The body of a plain raw string: everything up to the first quote, which
/// must exist.
pub open spec fn spec_raw_body(s: Seq<char>) -> Option<(Seq<char>, Seq<char>)>
    decreases s.len(),
{
    if s.len() == 0 {
        None
    } else if s[0] == '"' {
        Some((Seq::empty(), s.drop_first()))
    } else {
        match spec_raw_body(s.drop_first()) {
            Some((c, r)) => Some((seq![s[0]] + c, r)),
            None => None,
        }
    }
}

pub proof fn lemma_raw_body_len(s: Seq<char>)
    ensures
        match spec_raw_body(s) {
            Some((_, r)) => r.len() < s.len(),
            None => true,
        },
    decreases s.len(),
{
    if s.len() > 0 && s[0] != '"' {
        lemma_raw_body_len(s.drop_first());
    }
}

/// A raw string token (`r"..."`) and what follows it.
pub open spec fn spec_lex_raw_string(s: Seq<char>) -> Option<(TokenView, Seq<char>)> {
    match spec_raw_body(s.skip(2)) {
        Some((c, r)) => Some((TokenView::String_(c), r)),
        None => None,
    }
}

/// Reads a raw string: no escapes, ended by the first quote.
pub fn lex_raw_string(iter: &mut Cursor<char>) -> (r: Result<Token, AsonError>)
    requires
        old(iter)@.len() >= 2,
        old(iter)@[0] == 'r',
        old(iter)@[1] == '"',
    ensures
        match r {
            Ok(t) => match spec_lex_raw_string(old(iter)@) {
                Some((tv, rest)) => t@ == tv && final(iter)@ == rest,
                None => false,
            },
            Err(_) => spec_lex_raw_string(old(iter)@) is None,
        },
{
    iter.next();
    iter.next();
    let ghost rest0 = old(iter)@.skip(2);
    let mut acc: Vec<char> = Vec::new();
    proof {
        assert(iter@ =~= rest0);
        if spec_raw_body(rest0) is Some {
            assert(Seq::<char>::empty() + spec_raw_body(rest0)->Some_0.0 =~= spec_raw_body(
                rest0,
            )->Some_0.0);
        }
    }
    loop
        invariant
            scan_cont(spec_raw_body(rest0), acc@, spec_raw_body(iter@)),
        decreases iter@.len(),
    {
        let ghost pre = iter@;
        let ghost apre = acc@;
        match iter.next() {
            None => {
                return err_token("Missing end quote for string.");
            },
            Some(c) => {
                if c == '"' {
                    proof {
                        assert(acc@ + Seq::<char>::empty() =~= acc@);
                    }
                    return Ok(Token::String_(acc));
                } else {
                    acc.push(c);
                    proof {
                        if spec_raw_body(iter@) is Some {
                            assert(apre + (seq![c] + spec_raw_body(iter@)->Some_0.0) =~= acc@
                                + spec_raw_body(iter@)->Some_0.0);
                        }
                    }
                }
            },
        }
    }
}

/// The body of a hash-delimited raw string: everything up to the first
/// quote-hash pair, which must exist; bare quotes are content.
pub open spec fn spec_raw_hash_body(s: Seq<char>) -> Option<(Seq<char>, Seq<char>)>
    decreases s.len(),
{
    if s.len() == 0 {
        None
    } else if s[0] == '"' && s.len() >= 2 && s[1] == '#' {
        Some((Seq::empty(), s.skip(2)))
    } else {
        match spec_raw_hash_body(s.drop_first()) {
            Some((c, r)) => Some((seq![s[0]] + c, r)),
            None => None,
        }
    }
}

pub proof fn lemma_raw_hash_body_len(s: Seq<char>)
    ensures
        match spec_raw_hash_body(s) {
            Some((_, r)) => r.len() < s.len(),
            None => true,
        },
    decreases s.len(),
{
    if s.len() > 0 && !(s[0] == '"' && s.len() >= 2 && s[1] == '#') {
        lemma_raw_hash_body_len(s.drop_first());
    }
}

/// A raw string token with a custom terminator (`r#"..."#`) and what
/// follows it.
pub open spec fn spec_lex_raw_string_hash(s: Seq<char>) -> Option<(TokenView, Seq<char>)> {
    match spec_raw_hash_body(s.skip(3)) {
        Some((c, r)) => Some((TokenView::String_(c), r)),
        None => None,
    }
}

/// Reads a raw string with a custom terminator: ended by `"#`, so bare
/// quotes may appear inside.
pub fn lex_raw_string_with_hash(iter: &mut Cursor<char>) -> (r: Result<Token, AsonError>)
    requires
        old(iter)@.len() >= 3,
        old(iter)@[0] == 'r',
        old(iter)@[1] == '#',
        old(iter)@[2] == '"',
    ensures
        match r {
            Ok(t) => match spec_lex_raw_string_hash(old(iter)@) {
                Some((tv, rest)) => t@ == tv && final(iter)@ == rest,
                None => false,
            },
            Err(_) => spec_lex_raw_string_hash(old(iter)@) is None,
        },
{
    iter.next();
    iter.next();
    iter.next();
    let ghost rest0 = old(iter)@.skip(3);
    let mut acc: Vec<char> = Vec::new();
    proof {
        assert(iter@ =~= rest0);
        if spec_raw_hash_body(rest0) is Some {
            assert(Seq::<char>::empty() + spec_raw_hash_body(rest0)->Some_0.0
                =~= spec_raw_hash_body(rest0)->Some_0.0);
        }
    }
    loop
        invariant
            scan_cont(spec_raw_hash_body(rest0), acc@, spec_raw_hash_body(iter@)),
        decreases iter@.len(),
    {
        let ghost pre = iter@;
        let ghost apre = acc@;
        match iter.next() {
            None => {
                return err_token("Missing the ending marker for the raw string.");
            },
            Some(c) => {
                if c == '"' && iter.equals(0, '#') {
                    iter.next();
                    proof {
                        assert(acc@ + Seq::<char>::empty() =~= acc@);
                        assert(pre.drop_first().drop_first() =~= pre.skip(2));
                    }
                    return Ok(Token::String_(acc));
                } else {
                    acc.push(c);
                    proof {
                        if spec_raw_hash_body(iter@) is Some {
                            assert(apre + (seq![c] + spec_raw_hash_body(iter@)->Some_0.0) =~= acc@
                                + spec_raw_hash_body(iter@)->Some_0.0);
                        }
                    }
                }
            },
        }
    }
}

/// The scalar a simple escape denotes: backslash, both quotes, tab,
/// carriage return, line feed and the null scalar.
pub open spec fn escape_char_of(e: char) -> Option<char> {
    if e == '\\' {
        Some('\\')
    } else if e == '\'' {
        Some('\'')
    } else if e == '"' {
        Some('"')
    } else if e == 't' {
        Some('\t')
    } else if e == 'r' {
        Some('\r')
    } else if e == 'n' {
        Some('\n')
    } else if e == '0' {
        Some('\0')
    } else {
        None
    }
}

fn escape_char(e: char) -> (r: Option<char>)
    ensures
        r == escape_char_of(e),
{
    if e == '\\' {
        Some('\\')
    } else if e == '\'' {
        Some('\'')
    } else if e == '"' {
        Some('"')
    } else if e == 't' {
        Some('\t')
    } else if e == 'r' {
        Some('\r')
    } else if e == 'n' {
        Some('\n')
    } else if e == '0' {
        Some('\0')
    } else {
        None
    }
}

/// A character token and what follows it: one plain or escaped scalar
/// between single quotes.
pub open spec fn spec_lex_char(s: Seq<char>) -> Option<(TokenView, Seq<char>)> {
    if s.len() < 2 {
        None
    } else {
        let step = if s[1] == '\\' {
            if s.len() < 3 {
                None
            } else if s[2] == 'u' {
                spec_unescape_unicode(s.skip(3))
            } else {
                match escape_char_of(s[2]) {
                    Some(c) => Some((c, s.skip(3))),
                    None => None,
                }
            }
        } else {
            Some((s[1], s.skip(2)))
        };
        match step {
            None => None,
            Some((c, rest)) => {
                if rest.len() > 0 && rest[0] == '\'' {
                    Some((TokenView::Char(c), rest.drop_first()))
                } else {
                    None
                }
            },
        }
    }
}

/// Reads a character literal: a single scalar, plain or escaped, closed by
/// a single quote.
pub fn lex_char(iter: &mut Cursor<char>) -> (r: Result<Token, AsonError>)
    requires
        old(iter)@.len() >= 1,
        old(iter)@[0] == '\'',
    ensures
        match r {
            Ok(t) => match spec_lex_char(old(iter)@) {
                Some((tv, rest)) => t@ == tv && final(iter)@ == rest,
                None => false,
            },
            Err(_) => spec_lex_char(old(iter)@) is None,
        },
{
    iter.next();
    let c: char = match iter.next() {
        None => {
            return err_token("Incomplete char.");
        },
        Some(c1) => {
            if c1 == '\\' {
                match iter.next() {
                    None => {
                        return err_token("Incomplete escape char.");
                    },
                    Some(e) => {
                        proof {
                            assert(old(iter)@.drop_first().drop_first().drop_first() =~= old(
                                iter,
                            )@.skip(3));
                        }
                        if e == 'u' {
                            match lex_string_unescape_unicode(iter) {
                                Ok(c) => c,
                                Err(e) => {
                                    return Err(e);
                                },
                            }
                        } else {
                            match escape_char(e) {
                                Some(c) => c,
                                None => {
                                    return err_token("Unsupported escape char.");
                                },
                            }
                        }
                    },
                }
            } else {
                proof {
                    assert(old(iter)@.drop_first().drop_first() =~= old(iter)@.skip(2));
                }
                c1
            }
        },
    };
    match iter.next() {
        Some(q) => {
            if q == '\'' {
                Ok(Token::Char(c))
            } else {
                err_token("Missing end single quote for char.")
            }
        },
        None => err_token("Missing end single quote for char."),
    }
}

/// The body of an escaped string: plain scalars, the simple escapes, the
/// braced unicode escape, and the line continuation (a backslash before a
/// line break joins lines and swallows the next line's indentation); ended
/// by an unescaped quote, which must exist.
pub open spec fn spec_string_body(s: Seq<char>) -> Option<(Seq<char>, Seq<char>)>
    decreases s.len(),
    via spec_string_body_dec
{
    if s.len() == 0 {
        None
    } else if s[0] == '"' {
        Some((Seq::empty(), s.drop_first()))
    } else if s[0] == '\\' {
        if s.len() < 2 {
            None
        } else if s[1] == 'u' {
            match spec_unescape_unicode(s.skip(2)) {
                Some((c, rest)) => match spec_string_body(rest) {
                    Some((cs, r)) => Some((seq![c] + cs, r)),
                    None => None,
                },
                None => None,
            }
        } else if s[1] == '\n' {
            match spec_leading_ws(s.skip(2)) {
                Some((_, rest)) => spec_string_body(rest),
                None => None,
            }
        } else if s[1] == '\r' && s.len() >= 3 && s[2] == '\n' {
            match spec_leading_ws(s.skip(3)) {
                Some((_, rest)) => spec_string_body(rest),
                None => None,
            }
        } else {
            match escape_char_of(s[1]) {
                Some(c) => match spec_string_body(s.skip(2)) {
                    Some((cs, r)) => Some((seq![c] + cs, r)),
                    None => None,
                },
                None => None,
            }
        }
    } else {
        match spec_string_body(s.drop_first()) {
            Some((cs, r)) => Some((seq![s[0]] + cs, r)),
            None => None,
        }
    }
}

#[via_fn]
proof fn spec_string_body_dec(s: Seq<char>) {
    if s.len() >= 2 && s[0] == '\\' {
        if s[1] == 'u' {
            lemma_unescape_unicode_len(s.skip(2));
        }
        if s[1] == '\n' {
            lemma_leading_ws_len(s.skip(2));
        }
        if s[1] == '\r' && s.len() >= 3 && s[2] == '\n' {
            lemma_leading_ws_len(s.skip(3));
        }
    }
}

pub proof fn lemma_string_body_len(s: Seq<char>)
    ensures
        match spec_string_body(s) {
            Some((_, r)) => r.len() < s.len(),
            None => true,
        },
    decreases s.len(),
{
    if s.len() > 0 && s[0] != '"' {
        if s[0] == '\\' && s.len() >= 2 {
            if s[1] == 'u' {
                lemma_unescape_unicode_len(s.skip(2));
                match spec_unescape_unicode(s.skip(2)) {
                    Some((_, rest)) => {
                        lemma_string_body_len(rest);
                    },
                    None => {},
                }
            } else if s[1] == '\n' {
                lemma_leading_ws_len(s.skip(2));
                match spec_leading_ws(s.skip(2)) {
                    Some((_, rest)) => {
                        lemma_string_body_len(rest);
                    },
                    None => {},
                }
            } else if s[1] == '\r' && s.len() >= 3 && s[2] == '\n' {
                lemma_leading_ws_len(s.skip(3));
                match spec_leading_ws(s.skip(3)) {
                    Some((_, rest)) => {
                        lemma_string_body_len(rest);
                    },
                    None => {},
                }
            } else {
                lemma_string_body_len(s.skip(2));
            }
        } else if s[0] != '\\' {
            lemma_string_body_len(s.drop_first());
        }
    }
}

/// The body of a block comment at a given nesting depth: `/*` and `*/`
/// pairs nest by a counter, and only the pair that closes depth one ends
/// the comment; inner markers stay in the text verbatim.
pub open spec fn spec_block_body(s: Seq<char>, depth: int) -> Option<(Seq<char>, Seq<char>)>
    decreases s.len(),
{
    if s.len() == 0 {
        None
    } else if s[0] == '/' && s.len() >= 2 && s[1] == '*' {
        match spec_block_body(s.skip(2), depth + 1) {
            Some((c, r)) => Some((seq!['/', '*'] + c, r)),
            None => None,
        }
    } else if s[0] == '*' && s.len() >= 2 && s[1] == '/' {
        if depth == 1 {
            Some((Seq::empty(), s.skip(2)))
        } else {
            match spec_block_body(s.skip(2), depth - 1) {
                Some((c, r)) => Some((seq!['*', '/'] + c, r)),
                None => None,
            }
        }
    } else {
        match spec_block_body(s.drop_first(), depth) {
            Some((c, r)) => Some((seq![s[0]] + c, r)),
            None => None,
        }
    }
}

pub proof fn lemma_block_body_len(s: Seq<char>, depth: int)
    ensures
        match spec_block_body(s, depth) {
            Some((_, r)) => r.len() < s.len(),
            None => true,
        },
    decreases s.len(),
{
    if s.len() > 0 {
        if s[0] == '/' && s.len() >= 2 && s[1] == '*' {
            lemma_block_body_len(s.skip(2), depth + 1);
        } else if s[0] == '*' && s.len() >= 2 && s[1] == '/' {
            if depth != 1 {
                lemma_block_body_len(s.skip(2), depth - 1);
            }
        } else {
            lemma_block_body_len(s.drop_first(), depth);
        }
    }
}

/// A block comment token and what follows it.
pub open spec fn spec_lex_block_comment(s: Seq<char>) -> Option<(TokenView, Seq<char>)> {
    match spec_block_body(s.skip(2), 1) {
        Some((c, r)) => Some((TokenView::Comment(CommentTokenView::Block(c)), r)),
        None => None,
    }
}

/// Reads a block comment, nested pairs counted; line-comment markers
/// inside are inert; an unterminated comment is an error.
pub fn lex_block_comment(iter: &mut Cursor<char>) -> (r: Result<Token, AsonError>)
    requires
        old(iter)@.len() >= 2,
        old(iter)@[0] == '/',
        old(iter)@[1] == '*',
    ensures
        match r {
            Ok(t) => match spec_lex_block_comment(old(iter)@) {
                Some((tv, rest)) => t@ == tv && final(iter)@ == rest,
                None => false,
            },
            Err(_) => spec_lex_block_comment(old(iter)@) is None,
        },
{
    let total: usize = iter.remaining();
    iter.next();
    iter.next();
    let ghost rest0 = old(iter)@.skip(2);
    let mut acc: Vec<char> = Vec::new();
    let mut pairs: usize = 1;
    proof {
        assert(iter@ =~= rest0);
        if spec_block_body(rest0, 1) is Some {
            assert(Seq::<char>::empty() + spec_block_body(rest0, 1)->Some_0.0 =~= spec_block_body(
                rest0,
                1,
            )->Some_0.0);
        }
    }
    loop
        invariant
            1 <= pairs,
            pairs <= 1 + total - iter@.len(),
            match spec_block_body(iter@, pairs as int) {
                None => spec_block_body(rest0, 1) is None,
                Some((c, r)) => spec_block_body(rest0, 1) == Some((acc@ + c, r)),
            },
        decreases iter@.len(),
    {
        let ghost pre = iter@;
        let ghost apre = acc@;
        match iter.next() {
            None => {
                return err_token("Incomplete block comment.");
            },
            Some(c) => {
                if c == '/' && iter.equals(0, '*') {
                    iter.next();
                    acc.push('/');
                    acc.push('*');
                    pairs = pairs + 1;
                    proof {
                        assert(pre.drop_first().drop_first() =~= pre.skip(2));
                        if spec_block_body(iter@, pairs as int) is Some {
                            assert(apre + (seq!['/', '*'] + spec_block_body(
                                iter@,
                                pairs as int,
                            )->Some_0.0) =~= acc@ + spec_block_body(iter@, pairs as int)->Some_0.0);
                        }
                    }
                } else if c == '*' && iter.equals(0, '/') {
                    iter.next();
                    proof {
                        assert(pre.drop_first().drop_first() =~= pre.skip(2));
                    }
                    if pairs == 1 {
                        proof {
                            assert(acc@ + Seq::<char>::empty() =~= acc@);
                        }
                        return Ok(Token::Comment(CommentToken::Block(acc)));
                    } else {
                        acc.push('*');
                        acc.push('/');
                        pairs = pairs - 1;
                        proof {
                            if spec_block_body(iter@, pairs as int) is Some {
                                assert(apre + (seq!['*', '/'] + spec_block_body(
                                    iter@,
                                    pairs as int,
                                )->Some_0.0) =~= acc@ + spec_block_body(
                                    iter@,
                                    pairs as int,
                                )->Some_0.0);
                            }
                        }
                    }
                } else {
                    acc.push(c);
                    proof {
                        if spec_block_body(iter@, pairs as int) is Some {
                            assert(apre + (seq![c] + spec_block_body(
                                iter@,
                                pairs as int,
                            )->Some_0.0) =~= acc@ + spec_block_body(iter@, pairs as int)->Some_0.0);
                        }
                    }
                }
            },
        }
    }
}

/// Whether a scalar may appear inside a date literal.
pub open spec fn is_date_char(c: char) -> bool {
    is_radix_digit(c, 10) || c == '-' || c == ':' || c == ' ' || c == 't' || c == 'T' || c == 'z'
        || c == 'Z' || c == '+'
}

fn date_char(c: char) -> (b: bool)
    ensures
        b == is_date_char(c),
{
    let u: u32 = c as u32;
    (48 <= u && u <= 57) || c == '-' || c == ':' || c == ' ' || c == 't' || c == 'T' || c == 'z'
        || c == 'Z' || c == '+'
}

/// The text of a date literal and what follows its closing quote.
pub open spec fn spec_date_scan(s: Seq<char>) -> Option<(Seq<char>, Seq<char>)>
    decreases s.len(),
{
    if s.len() == 0 {
        None
    } else if s[0] == '"' {
        Some((Seq::empty(), s.drop_first()))
    } else if is_date_char(s[0]) {
        match spec_date_scan(s.drop_first()) {
            Some((c, r)) => Some((seq![s[0]] + c, r)),
            None => None,
        }
    } else {
        None
    }
}

pub proof fn lemma_date_scan_len(s: Seq<char>)
    ensures
        match spec_date_scan(s) {
            Some((_, r)) => r.len() < s.len(),
            None => true,
        },
    decreases s.len(),
{
    if s.len() > 0 && s[0] != '"' && is_date_char(s[0]) {
        lemma_date_scan_len(s.drop_first());
    }
}

/// A date token and what follows it: at least nineteen scalars
/// (`YYYY-MM-DD HH:mm:ss`), UTC assumed when exactly nineteen, read as an
/// RFC 3339 moment.
pub open spec fn spec_lex_date(s: Seq<char>) -> Option<(TokenView, Seq<char>)> {
    match spec_date_scan(s.skip(2)) {
        None => None,
        Some((ds, rest)) => {
            if ds.len() < 19 {
                None
            } else {
                let text = if ds.len() == 19 {
                    ds.push('z')
                } else {
                    ds
                };
                match crate::foreign::rfc3339_of(text) {
                    None => None,
                    Some((sec, off)) => Some(
                        (
                            TokenView::Date(DateMoment { seconds: sec, offset_seconds: off }),
                            rest,
                        ),
                    ),
                }
            }
        },
    }
}

/// Reads a date literal and parses it as an RFC 3339 moment.
pub fn lex_date(iter: &mut Cursor<char>) -> (r: Result<Token, AsonError>)
    requires
        old(iter)@.len() >= 2,
        old(iter)@[0] == 'd',
        old(iter)@[1] == '"',
    ensures
        match r {
            Ok(t) => match spec_lex_date(old(iter)@) {
                Some((tv, rest)) => t@ == tv && final(iter)@ == rest,
                None => false,
            },
            Err(_) => spec_lex_date(old(iter)@) is None,
        },
{
    iter.next();
    iter.next();
    let ghost rest0 = old(iter)@.skip(2);
    let mut acc: Vec<char> = Vec::new();
    proof {
        assert(iter@ =~= rest0);
        if spec_date_scan(rest0) is Some {
            assert(Seq::<char>::empty() + spec_date_scan(rest0)->Some_0.0 =~= spec_date_scan(
                rest0,
            )->Some_0.0);
        }
    }
    loop
        invariant
            scan_cont(spec_date_scan(rest0), acc@, spec_date_scan(iter@)),
        decreases iter@.len(),
    {
        let ghost pre = iter@;
        let ghost apre = acc@;
        match iter.next() {
            None => {
                return err_token("Incomplete date time.");
            },
            Some(c) => {
                if c == '"' {
                    proof {
                        assert(acc@ + Seq::<char>::empty() =~= acc@);
                    }
                    break ;
                } else if date_char(c) {
                    acc.push(c);
                    proof {
                        if spec_date_scan(iter@) is Some {
                            assert(apre + (seq![c] + spec_date_scan(iter@)->Some_0.0) =~= acc@
                                + spec_date_scan(iter@)->Some_0.0);
                        }
                    }
                } else {
                    return err_token("Invalid char for date time.");
                }
            },
        }
    }
    if acc.len() < 19 {
        return err_token("Incorrect date time (format: YYYY-MM-DD HH:mm:ss) string.");
    }
    if acc.len() == 19 {
        acc.push('z');
    }
    match crate::foreign::parse_rfc3339(&acc) {
        None => err_token("Can not parse the string into datetime."),
        Some((seconds, offset_seconds)) => Ok(Token::Date(DateMoment { seconds, offset_seconds })),
    }
}

/// Whether a scalar is an ignorable separator inside byte data.
pub open spec fn is_byte_sep(c: char) -> bool {
    c == ' ' || c == '\t' || c == '\r' || c == '\n' || c == '-' || c == ':'
}

fn byte_sep(c: char) -> (b: bool)
    ensures
        b == is_byte_sep(c),
{
    c == ' ' || c == '\t' || c == '\r' || c == '\n' || c == '-' || c == ':'
}

/// The bytes of a byte-data literal and what follows its closing quote:
/// hex digits taken in pairs, separators ignored; an odd trailing digit, a
/// foreign scalar or a missing quote is an error.
pub open spec fn spec_bytes_body(s: Seq<char>, pending: Option<char>) -> Option<
    (Seq<u8>, Seq<char>),
>
    decreases s.len(),
{
    if s.len() == 0 {
        None
    } else if s[0] == '"' {
        if pending is Some {
            None
        } else {
            Some((Seq::empty(), s.drop_first()))
        }
    } else if is_byte_sep(s[0]) {
        spec_bytes_body(s.drop_first(), pending)
    } else if is_radix_digit(s[0], 16) {
        match pending {
            None => spec_bytes_body(s.drop_first(), Some(s[0])),
            Some(p) => match spec_bytes_body(s.drop_first(), None) {
                Some((bs, r)) => Some(
                    (seq![(crate::numbers::digit_val(p) * 16 + crate::numbers::digit_val(s[0])) as u8] + bs, r),
                ),
                None => None,
            },
        }
    } else {
        None
    }
}

pub proof fn lemma_bytes_body_len(s: Seq<char>, pending: Option<char>)
    ensures
        match spec_bytes_body(s, pending) {
            Some((_, r)) => r.len() < s.len(),
            None => true,
        },
    decreases s.len(),
{
    if s.len() > 0 && s[0] != '"' {
        if is_byte_sep(s[0]) {
            lemma_bytes_body_len(s.drop_first(), pending);
        } else if is_radix_digit(s[0], 16) {
            match pending {
                None => lemma_bytes_body_len(s.drop_first(), Some(s[0])),
                Some(_) => lemma_bytes_body_len(s.drop_first(), None),
            }
        }
    }
}

/// A byte-data token and what follows it.
pub open spec fn spec_lex_hex_byte_data(s: Seq<char>) -> Option<(TokenView, Seq<char>)> {
    match spec_bytes_body(s.skip(2), None) {
        Some((bs, r)) => Some((TokenView::ByteData(bs), r)),
        None => None,
    }
}

/// The numeric value of a hexadecimal digit.
fn hex_val(c: char) -> (v: u8)
    requires
        is_radix_digit(c, 16),
    ensures
        v == crate::numbers::digit_val(c),
{
    let u: u32 = c as u32;
    if 48 <= u && u <= 57 {
        (u - 48) as u8
    } else if 97 <= u && u <= 102 {
        (u - 87) as u8
    } else {
        (u - 55) as u8
    }
}

/// Reads a byte-data literal: hex digit pairs with ignorable separators.
pub fn lex_hex_byte_data(iter: &mut Cursor<char>) -> (r: Result<Token, AsonError>)
    requires
        old(iter)@.len() >= 2,
        old(iter)@[0] == 'h',
        old(iter)@[1] == '"',
    ensures
        match r {
            Ok(t) => match spec_lex_hex_byte_data(old(iter)@) {
                Some((tv, rest)) => t@ == tv && final(iter)@ == rest,
                None => false,
            },
            Err(_) => spec_lex_hex_byte_data(old(iter)@) is None,
        },
{
    iter.next();
    iter.next();
    let ghost rest0 = old(iter)@.skip(2);
    let mut acc: Vec<u8> = Vec::new();
    let mut pending: Option<char> = None;
    proof {
        assert(iter@ =~= rest0);
        if spec_bytes_body(rest0, None) is Some {
            assert(Seq::<u8>::empty() + spec_bytes_body(rest0, None)->Some_0.0 =~= spec_bytes_body(
                rest0,
                None,
            )->Some_0.0);
        }
    }
    loop
        invariant
            pending matches Some(p) ==> is_radix_digit(p, 16),
            match spec_bytes_body(iter@, pending) {
                None => spec_bytes_body(rest0, None) is None,
                Some((bs, r)) => spec_bytes_body(rest0, None) == Some((acc@ + bs, r)),
            },
        decreases iter@.len(),
    {
        let ghost pre = iter@;
        let ghost apre = acc@;
        match iter.next() {
            None => {
                return err_token("Missing end quote for byte string.");
            },
            Some(c) => {
                if c == '"' {
                    if pending.is_some() {
                        return err_token("Incomplete byte string.");
                    }
                    proof {
                        assert(acc@ + Seq::<u8>::empty() =~= acc@);
                    }
                    return Ok(Token::ByteData(acc));
                } else if byte_sep(c) {
                    // nothing changes but the position
                } else if hex_digit(c) {
                    match pending {
                        None => {
                            pending = Some(c);
                        },
                        Some(p) => {
                            let b: u8 = hex_val(p) * 16 + hex_val(c);
                            acc.push(b);
                            pending = None;
                            proof {
                                if spec_bytes_body(iter@, pending) is Some {
                                    assert(apre + (seq![b] + spec_bytes_body(
                                        iter@,
                                        pending,
                                    )->Some_0.0) =~= acc@ + spec_bytes_body(
                                        iter@,
                                        pending,
                                    )->Some_0.0);
                                }
                            }
                        },
                    }
                } else {
                    return err_token("Invalid char for byte string.");
                }
            },
        }
    }
}

/// The text with its trailing whitespace removed.
pub open spec fn spec_trim_end(s: Seq<char>) -> Seq<char>
    decreases s.len(),
{
    if s.len() > 0 && ws_of(s.last()) {
        spec_trim_end(s.drop_last())
    } else {
        s
    }
}

/// Removes trailing whitespace from a text.
fn trim_end_ws(text: Vec<char>) -> (r: Vec<char>)
    ensures
        r@ == spec_trim_end(text@),
{
    let mut v: Vec<char> = text;
    loop
        invariant
            spec_trim_end(text@) == spec_trim_end(v@),
        decreases v@.len(),
    {
        if v.len() == 0 {
            return v;
        }
        let last: char = v[v.len() - 1];
        if is_whitespace_char(last) {
            v.pop();
        } else {
            return v;
        }
    }
}

/// The body of an auto-trimmed block (also a document comment's): each
/// line break is kept and the next line's indentation is stripped up to
/// `leading` scalars; a quote-bar pair ends the body only when everything
/// before it on its line is whitespace.
pub open spec fn spec_trim_body(s: Seq<char>, leading: int, blank: bool) -> Option<
    (Seq<char>, Seq<char>),
>
    decreases s.len(),
    via spec_trim_body_dec
{
    if s.len() == 0 {
        None
    } else {
        let c = s[0];
        if c == '\n' {
            match spec_trim_body(spec_skip_ws(s.drop_first(), leading), leading, true) {
                Some((cs, r)) => Some((seq!['\n'] + cs, r)),
                None => None,
            }
        } else if c == '\r' && s.len() >= 2 && s[1] == '\n' {
            match spec_trim_body(spec_skip_ws(s.skip(2), leading), leading, true) {
                Some((cs, r)) => Some((seq!['\r', '\n'] + cs, r)),
                None => None,
            }
        } else if c == '"' && blank && s.len() >= 2 && s[1] == '|' {
            Some((Seq::empty(), s.skip(2)))
        } else {
            match spec_trim_body(s.drop_first(), leading, blank && ws_of(c)) {
                Some((cs, r)) => Some((seq![c] + cs, r)),
                None => None,
            }
        }
    }
}

#[via_fn]
proof fn spec_trim_body_dec(s: Seq<char>, leading: int, blank: bool) {
    if s.len() > 0 {
        lemma_skip_ws_len(s.drop_first(), leading);
        if s.len() >= 2 {
            lemma_skip_ws_len(s.skip(2), leading);
        }
    }
}

pub proof fn lemma_trim_body_len(s: Seq<char>, leading: int, blank: bool)
    ensures
        match spec_trim_body(s, leading, blank) {
            Some((_, r)) => r.len() < s.len(),
            None => true,
        },
    decreases s.len(),
{
    if s.len() > 0 {
        let c = s[0];
        if c == '\n' {
            lemma_skip_ws_len(s.drop_first(), leading);
            lemma_trim_body_len(spec_skip_ws(s.drop_first(), leading), leading, true);
        } else if c == '\r' && s.len() >= 2 && s[1] == '\n' {
            lemma_skip_ws_len(s.skip(2), leading);
            lemma_trim_body_len(spec_skip_ws(s.skip(2), leading), leading, true);
        } else if c == '"' && blank && s.len() >= 2 && s[1] == '|' {
        } else {
            lemma_trim_body_len(s.drop_first(), leading, blank && ws_of(c));
        }
    }
}

/// An auto-trimmed string token and what follows it: the content must
/// start on the line after `r|"`, each line loses the first line's
/// indentation, the `"|` terminator must be alone on its line, and the
/// content's trailing whitespace is trimmed.
pub open spec fn spec_lex_auto_trimmed(s: Seq<char>) -> Option<(TokenView, Seq<char>)> {
    let s3 = s.skip(3);
    if s3.len() >= 1 && s3[0] == '\n' || s3.len() >= 2 && s3[0] == '\r' && s3[1] == '\n' {
        let after = if s3[0] == '\n' {
            s3.drop_first()
        } else {
            s3.skip(2)
        };
        match spec_leading_ws(after) {
            None => None,
            Some((n, rest)) => match spec_trim_body(rest, n, true) {
                None => None,
                Some((content, r)) => Some((TokenView::String_(spec_trim_end(content)), r)),
            },
        }
    } else {
        None
    }
}

/// Reads an auto-trimmed string block.
#[verifier::rlimit(60)]
pub fn lex_auto_trimmed_string(iter: &mut Cursor<char>) -> (r: Result<Token, AsonError>)
    requires
        old(iter)@.len() >= 3,
        old(iter)@[0] == 'r',
        old(iter)@[1] == '|',
        old(iter)@[2] == '"',
    ensures
        match r {
            Ok(t) => match spec_lex_auto_trimmed(old(iter)@) {
                Some((tv, rest)) => t@ == tv && final(iter)@ == rest,
                None => false,
            },
            Err(_) => spec_lex_auto_trimmed(old(iter)@) is None,
        },
{
    iter.next();
    iter.next();
    iter.next();
    let ghost s3 = old(iter)@.skip(3);
    proof {
        assert(iter@ =~= s3);
    }
    if iter.equals(0, '\n') {
        iter.next();
    } else if iter.equals(0, '\r') && iter.equals(1, '\n') {
        iter.next();
        iter.next();
        proof {
            assert(s3.drop_first().drop_first() =~= s3.skip(2));
        }
    } else {
        return err_token("The content of auto-trimmed string should start on a new line.");
    }
    let leading: usize = match consume_leading_whitespaces(iter) {
        Ok(n) => n,
        Err(e) => {
            return Err(e);
        },
    };
    let ghost body0 = iter@;
    let mut acc: Vec<char> = Vec::new();
    let mut blank: bool = true;
    proof {
        if spec_trim_body(body0, leading as int, true) is Some {
            assert(Seq::<char>::empty() + spec_trim_body(body0, leading as int, true)->Some_0.0
                =~= spec_trim_body(body0, leading as int, true)->Some_0.0);
        }
    }
    loop
        invariant
            match spec_trim_body(iter@, leading as int, blank) {
                None => spec_trim_body(body0, leading as int, true) is None,
                Some((cs, r)) => spec_trim_body(body0, leading as int, true) == Some(
                    (acc@ + cs, r),
                ),
            },
        decreases iter@.len(),
    {
        let ghost pre = iter@;
        let ghost apre = acc@;
        match iter.next() {
            None => {
                return err_token("Missing the ending marker for the auto-trimmed string.");
            },
            Some(c) => {
                if c == '\n' {
                    acc.push('\n');
                    proof {
                        lemma_skip_ws_len(iter@, leading as int);
                    }
                    skip_leading_whitespaces(iter, leading);
                    blank = true;
                    proof {
                        if spec_trim_body(iter@, leading as int, blank) is Some {
                            assert(apre + (seq!['\n'] + spec_trim_body(
                                iter@,
                                leading as int,
                                blank,
                            )->Some_0.0) =~= acc@ + spec_trim_body(
                                iter@,
                                leading as int,
                                blank,
                            )->Some_0.0);
                        }
                    }
                } else if c == '\r' && iter.equals(0, '\n') {
                    iter.next();
                    acc.push('\r');
                    acc.push('\n');
                    proof {
                        lemma_skip_ws_len(iter@, leading as int);
                    }
                    skip_leading_whitespaces(iter, leading);
                    blank = true;
                    proof {
                        assert(pre.drop_first().drop_first() =~= pre.skip(2));
                        if spec_trim_body(iter@, leading as int, blank) is Some {
                            assert(apre + (seq!['\r', '\n'] + spec_trim_body(
                                iter@,
                                leading as int,
                                blank,
                            )->Some_0.0) =~= acc@ + spec_trim_body(
                                iter@,
                                leading as int,
                                blank,
                            )->Some_0.0);
                        }
                    }
                } else if c == '"' && blank && iter.equals(0, '|') {
                    iter.next();
                    proof {
                        assert(pre.drop_first().drop_first() =~= pre.skip(2));
                        assert(acc@ + Seq::<char>::empty() =~= acc@);
                    }
                    return Ok(Token::String_(trim_end_ws(acc)));
                } else {
                    acc.push(c);
                    let c_ws: bool = is_whitespace_char(c);
                    blank = blank && c_ws;
                    proof {
                        if spec_trim_body(iter@, leading as int, blank) is Some {
                            assert(apre + (seq![c] + spec_trim_body(
                                iter@,
                                leading as int,
                                blank,
                            )->Some_0.0) =~= acc@ + spec_trim_body(
                                iter@,
                                leading as int,
                                blank,
                            )->Some_0.0);
                        }
                    }
                }
            },
        }
    }
}

/// The body of a document comment: like an auto-trimmed block, but the
/// terminator is a triple quote alone on its line, and it swallows the
/// line break that follows it; a triple quote anywhere else is content.
pub open spec fn spec_doc_body(s: Seq<char>, leading: int, blank: bool) -> Option<
    (Seq<char>, Seq<char>),
>
    decreases s.len(),
    via spec_doc_body_dec
{
    if s.len() == 0 {
        None
    } else {
        let c = s[0];
        if c == '\n' {
            match spec_doc_body(spec_skip_ws(s.drop_first(), leading), leading, true) {
                Some((cs, r)) => Some((seq!['\n'] + cs, r)),
                None => None,
            }
        } else if c == '\r' && s.len() >= 2 && s[1] == '\n' {
            match spec_doc_body(spec_skip_ws(s.skip(2), leading), leading, true) {
                Some((cs, r)) => Some((seq!['\r', '\n'] + cs, r)),
                None => None,
            }
        } else if c == '"' && blank && s.len() >= 3 && s[1] == '"' && s[2] == '"' {
            if s.len() >= 4 && s[3] == '\n' {
                Some((Seq::empty(), s.skip(4)))
            } else if s.len() >= 5 && s[3] == '\r' && s[4] == '\n' {
                Some((Seq::empty(), s.skip(5)))
            } else {
                match spec_doc_body(s.skip(3), leading, blank) {
                    Some((cs, r)) => Some((seq!['"', '"', '"'] + cs, r)),
                    None => None,
                }
            }
        } else {
            match spec_doc_body(s.drop_first(), leading, blank && ws_of(c)) {
                Some((cs, r)) => Some((seq![c] + cs, r)),
                None => None,
            }
        }
    }
}

#[via_fn]
proof fn spec_doc_body_dec(s: Seq<char>, leading: int, blank: bool) {
    if s.len() > 0 {
        lemma_skip_ws_len(s.drop_first(), leading);
        if s.len() >= 2 {
            lemma_skip_ws_len(s.skip(2), leading);
        }
    }
}

pub proof fn lemma_doc_body_len(s: Seq<char>, leading: int, blank: bool)
    ensures
        match spec_doc_body(s, leading, blank) {
            Some((_, r)) => r.len() < s.len(),
            None => true,
        },
    decreases s.len(),
{
    if s.len() > 0 {
        let c = s[0];
        if c == '\n' {
            lemma_skip_ws_len(s.drop_first(), leading);
            lemma_doc_body_len(spec_skip_ws(s.drop_first(), leading), leading, true);
        } else if c == '\r' && s.len() >= 2 && s[1] == '\n' {
            lemma_skip_ws_len(s.skip(2), leading);
            lemma_doc_body_len(spec_skip_ws(s.skip(2), leading), leading, true);
        } else if c == '"' && blank && s.len() >= 3 && s[1] == '"' && s[2] == '"' {
            if s.len() >= 4 && s[3] == '\n' {
            } else if s.len() >= 5 && s[3] == '\r' && s[4] == '\n' {
            } else {
                lemma_doc_body_len(s.skip(3), leading, blank);
            }
        } else {
            lemma_doc_body_len(s.drop_first(), leading, blank && ws_of(c));
        }
    }
}

/// A document comment token and what follows it: the same start and
/// indentation discipline as an auto-trimmed string, ended by a triple
/// quote alone on its line, which consumes its own line break.
pub open spec fn spec_lex_document_comment(s: Seq<char>) -> Option<(TokenView, Seq<char>)> {
    let s3 = s.skip(3);
    if s3.len() >= 1 && s3[0] == '\n' || s3.len() >= 2 && s3[0] == '\r' && s3[1] == '\n' {
        let after = if s3[0] == '\n' {
            s3.drop_first()
        } else {
            s3.skip(2)
        };
        match spec_leading_ws(after) {
            None => None,
            Some((n, rest)) => match spec_doc_body(rest, n, true) {
                None => None,
                Some((content, r)) => Some(
                    (TokenView::Comment(CommentTokenView::Document(spec_trim_end(content))), r),
                ),
            },
        }
    } else {
        None
    }
}

/// Reads a document comment block.
#[verifier::rlimit(60)]
pub fn lex_document_comment(iter: &mut Cursor<char>) -> (r: Result<Token, AsonError>)
    requires
        old(iter)@.len() >= 3,
        old(iter)@[0] == '"',
        old(iter)@[1] == '"',
        old(iter)@[2] == '"',
    ensures
        match r {
            Ok(t) => match spec_lex_document_comment(old(iter)@) {
                Some((tv, rest)) => t@ == tv && final(iter)@ == rest,
                None => false,
            },
            Err(_) => spec_lex_document_comment(old(iter)@) is None,
        },
{
    iter.next();
    iter.next();
    iter.next();
    let ghost s3 = old(iter)@.skip(3);
    proof {
        assert(iter@ =~= s3);
    }
    if iter.equals(0, '\n') {
        iter.next();
    } else if iter.equals(0, '\r') && iter.equals(1, '\n') {
        iter.next();
        iter.next();
        proof {
            assert(s3.drop_first().drop_first() =~= s3.skip(2));
        }
    } else {
        return err_token("The content of document comment should start on a new line.");
    }
    let leading: usize = match consume_leading_whitespaces(iter) {
        Ok(n) => n,
        Err(e) => {
            return Err(e);
        },
    };
    let ghost body0 = iter@;
    let mut acc: Vec<char> = Vec::new();
    let mut blank: bool = true;
    proof {
        if spec_doc_body(body0, leading as int, true) is Some {
            assert(Seq::<char>::empty() + spec_doc_body(body0, leading as int, true)->Some_0.0
                =~= spec_doc_body(body0, leading as int, true)->Some_0.0);
        }
    }
    loop
        invariant
            match spec_doc_body(iter@, leading as int, blank) {
                None => spec_doc_body(body0, leading as int, true) is None,
                Some((cs, r)) => spec_doc_body(body0, leading as int, true) == Some((acc@ + cs, r)),
            },
        decreases iter@.len(),
    {
        let ghost pre = iter@;
        let ghost apre = acc@;
        match iter.next() {
            None => {
                return err_token("Missing the ending marker for the document comment.");
            },
            Some(c) => {
                if c == '\n' {
                    acc.push('\n');
                    proof {
                        lemma_skip_ws_len(iter@, leading as int);
                    }
                    skip_leading_whitespaces(iter, leading);
                    blank = true;
                    proof {
                        if spec_doc_body(iter@, leading as int, blank) is Some {
                            assert(apre + (seq!['\n'] + spec_doc_body(
                                iter@,
                                leading as int,
                                blank,
                            )->Some_0.0) =~= acc@ + spec_doc_body(
                                iter@,
                                leading as int,
                                blank,
                            )->Some_0.0);
                        }
                    }
                } else if c == '\r' && iter.equals(0, '\n') {
                    iter.next();
                    acc.push('\r');
                    acc.push('\n');
                    proof {
                        lemma_skip_ws_len(iter@, leading as int);
                    }
                    skip_leading_whitespaces(iter, leading);
                    blank = true;
                    proof {
                        assert(pre.drop_first().drop_first() =~= pre.skip(2));
                        if spec_doc_body(iter@, leading as int, blank) is Some {
                            assert(apre + (seq!['\r', '\n'] + spec_doc_body(
                                iter@,
                                leading as int,
                                blank,
                            )->Some_0.0) =~= acc@ + spec_doc_body(
                                iter@,
                                leading as int,
                                blank,
                            )->Some_0.0);
                        }
                    }
                } else if c == '"' && blank && iter.equals(0, '"') && iter.equals(1, '"') {
                    iter.next();
                    iter.next();
                    proof {
                        assert(pre.drop_first().drop_first().drop_first() =~= pre.skip(3));
                    }
                    if iter.equals(0, '\n') {
                        iter.next();
                        proof {
                            assert(pre.skip(3).drop_first() =~= pre.skip(4));
                            assert(acc@ + Seq::<char>::empty() =~= acc@);
                        }
                        return Ok(Token::Comment(CommentToken::Document(trim_end_ws(acc))));
                    } else if iter.equals(0, '\r') && iter.equals(1, '\n') {
                        iter.next();
                        iter.next();
                        proof {
                            assert(pre.skip(3).drop_first().drop_first() =~= pre.skip(5));
                            assert(acc@ + Seq::<char>::empty() =~= acc@);
                        }
                        return Ok(Token::Comment(CommentToken::Document(trim_end_ws(acc))));
                    } else {
                        acc.push('"');
                        acc.push('"');
                        acc.push('"');
                        proof {
                            if spec_doc_body(iter@, leading as int, blank) is Some {
                                assert(apre + (seq!['"', '"', '"'] + spec_doc_body(
                                    iter@,
                                    leading as int,
                                    blank,
                                )->Some_0.0) =~= acc@ + spec_doc_body(
                                    iter@,
                                    leading as int,
                                    blank,
                                )->Some_0.0);
                            }
                        }
                    }
                } else {
                    acc.push(c);
                    let c_ws: bool = is_whitespace_char(c);
                    blank = blank && c_ws;
                    proof {
                        if spec_doc_body(iter@, leading as int, blank) is Some {
                            assert(apre + (seq![c] + spec_doc_body(
                                iter@,
                                leading as int,
                                blank,
                            )->Some_0.0) =~= acc@ + spec_doc_body(
                                iter@,
                                leading as int,
                                blank,
                            )->Some_0.0);
                        }
                    }
                }
            },
        }
    }
}

/// A string token and what follows it.
pub open spec fn spec_lex_string(s: Seq<char>) -> Option<(TokenView, Seq<char>)> {
    match spec_string_body(s.drop_first()) {
        Some((c, r)) => Some((TokenView::String_(c), r)),
        None => None,
    }
}

/// Reads a double-quoted string with escapes and line continuations.
pub fn lex_string(iter: &mut Cursor<char>) -> (r: Result<Token, AsonError>)
    requires
        old(iter)@.len() >= 1,
        old(iter)@[0] == '"',
    ensures
        match r {
            Ok(t) => match spec_lex_string(old(iter)@) {
                Some((tv, rest)) => t@ == tv && final(iter)@ == rest,
                None => false,
            },
            Err(_) => spec_lex_string(old(iter)@) is None,
        },
{
    iter.next();
    let ghost rest0 = old(iter)@.drop_first();
    let mut acc: Vec<char> = Vec::new();
    proof {
        if spec_string_body(rest0) is Some {
            assert(Seq::<char>::empty() + spec_string_body(rest0)->Some_0.0 =~= spec_string_body(
                rest0,
            )->Some_0.0);
        }
    }
    loop
        invariant
            scan_cont(spec_string_body(rest0), acc@, spec_string_body(iter@)),
        decreases iter@.len(),
    {
        let ghost pre = iter@;
        let ghost apre = acc@;
        match iter.next() {
            None => {
                return err_token("Missing end quote for string.");
            },
            Some(c) => {
                if c == '"' {
                    proof {
                        assert(acc@ + Seq::<char>::empty() =~= acc@);
                    }
                    return Ok(Token::String_(acc));
                } else if c == '\\' {
                    match iter.next() {
                        None => {
                            return err_token("Incomplete escape char.");
                        },
                        Some(e) => {
                            proof {
                                assert(pre.drop_first().drop_first() =~= pre.skip(2));
                            }
                            if e == 'u' {
                                proof {
                                    lemma_unescape_unicode_len(iter@);
                                }
                                match lex_string_unescape_unicode(iter) {
                                    Err(er) => {
                                        return Err(er);
                                    },
                                    Ok(uc) => {
                                        acc.push(uc);
                                        proof {
                                            if spec_string_body(iter@) is Some {
                                                assert(apre + (seq![uc] + spec_string_body(
                                                    iter@,
                                                )->Some_0.0) =~= acc@ + spec_string_body(
                                                    iter@,
                                                )->Some_0.0);
                                            }
                                        }
                                    },
                                }
                            } else if e == '\n' {
                                proof {
                                    lemma_leading_ws_len(iter@);
                                }
                                match consume_leading_whitespaces(iter) {
                                    Err(er) => {
                                        return Err(er);
                                    },
                                    Ok(_) => {},
                                }
                            } else if e == '\r' && iter.equals(0, '\n') {
                                iter.next();
                                proof {
                                    assert(pre.drop_first().drop_first().drop_first() =~= pre.skip(
                                        3,
                                    ));
                                    lemma_leading_ws_len(iter@);
                                }
                                match consume_leading_whitespaces(iter) {
                                    Err(er) => {
                                        return Err(er);
                                    },
                                    Ok(_) => {},
                                }
                            } else {
                                match escape_char(e) {
                                    None => {
                                        return err_token("Unsupported escape char.");
                                    },
                                    Some(ec) => {
                                        acc.push(ec);
                                        proof {
                                            if spec_string_body(iter@) is Some {
                                                assert(apre + (seq![ec] + spec_string_body(
                                                    iter@,
                                                )->Some_0.0) =~= acc@ + spec_string_body(
                                                    iter@,
                                                )->Some_0.0);
                                            }
                                        }
                                    },
                                }
                            }
                        },
                    }
                } else {
                    acc.push(c);
                    proof {
                        if spec_string_body(iter@) is Some {
                            assert(apre + (seq![c] + spec_string_body(iter@)->Some_0.0) =~= acc@
                                + spec_string_body(iter@)->Some_0.0);
                        }
                    }
                }
            },
        }
    }
}

/// An identifier token never outlasts its text.
pub proof fn lemma_lex_identifier_len(s: Seq<char>)
    requires
        s.len() > 0,
        is_ident_start(s[0]),
    ensures
        match spec_lex_identifier(s) {
            Some((_, r)) => r.len() < s.len(),
            None => true,
        },
{
    assert(Seq::<char>::empty().push(s[0]) =~= seq![s[0]]);
    lemma_ident_scan_len(s.drop_first(), seq![s[0]], false, None);
}

/// A character token never outlasts its text.
pub proof fn lemma_lex_char_len(s: Seq<char>)
    ensures
        match spec_lex_char(s) {
            Some((_, r)) => r.len() < s.len(),
            None => true,
        },
{
    if s.len() >= 3 && s[1] == '\\' && s[2] == 'u' {
        lemma_unescape_unicode_len(s.skip(3));
    }
}

/// An auto-trimmed string token never outlasts its text.
pub proof fn lemma_lex_auto_trimmed_len(s: Seq<char>)
    requires
        s.len() >= 3,
    ensures
        match spec_lex_auto_trimmed(s) {
            Some((_, r)) => r.len() < s.len(),
            None => true,
        },
{
    let s3 = s.skip(3);
    if s3.len() >= 1 && s3[0] == '\n' || s3.len() >= 2 && s3[0] == '\r' && s3[1] == '\n' {
        let after = if s3[0] == '\n' {
            s3.drop_first()
        } else {
            s3.skip(2)
        };
        lemma_leading_ws_len(after);
        match spec_leading_ws(after) {
            None => {},
            Some((n, rest)) => {
                lemma_trim_body_len(rest, n, true);
            },
        }
    }
}

/// A document comment token never outlasts its text.
pub proof fn lemma_lex_document_comment_len(s: Seq<char>)
    requires
        s.len() >= 3,
    ensures
        match spec_lex_document_comment(s) {
            Some((_, r)) => r.len() < s.len(),
            None => true,
        },
{
    let s3 = s.skip(3);
    if s3.len() >= 1 && s3[0] == '\n' || s3.len() >= 2 && s3[0] == '\r' && s3[1] == '\n' {
        let after = if s3[0] == '\n' {
            s3.drop_first()
        } else {
            s3.skip(2)
        };
        lemma_leading_ws_len(after);
        match spec_leading_ws(after) {
            None => {},
            Some((n, rest)) => {
                lemma_doc_body_len(rest, n, true);
            },
        }
    }
}

/// One token prepended to the outcome of lexing the rest: an error in
/// either part is an error of the whole.
pub open spec fn lex_cons(t: TokenView, rest: Option<Seq<TokenView>>) -> Option<Seq<TokenView>> {
    match rest {
        Some(ts) => Some(seq![t] + ts),
        None => None,
    }
}

/// The whole tokenization: one dispatch step per token, keyed on the
/// current scalar value; whitespace is skipped, `\r\n`, `\r` and `\n` each
/// make one NewLine, the punctuation scalars make their tokens, and every
/// other form is handed to its reader; a scalar that starts nothing is an
/// error.
pub open spec fn spec_lex(s: Seq<char>) -> Option<Seq<TokenView>>
    decreases s.len(),
    via spec_lex_dec
{
    if s.len() == 0 {
        Some(Seq::empty())
    } else {
        let c = s[0];
        if c == ' ' || c == '\t' {
            spec_lex(s.drop_first())
        } else if c == '\r' {
            if s.len() >= 2 && s[1] == '\n' {
                lex_cons(TokenView::NewLine, spec_lex(s.skip(2)))
            } else {
                lex_cons(TokenView::NewLine, spec_lex(s.drop_first()))
            }
        } else if c == '\n' {
            lex_cons(TokenView::NewLine, spec_lex(s.drop_first()))
        } else if c == ',' {
            lex_cons(TokenView::Comma, spec_lex(s.drop_first()))
        } else if c == ':' {
            lex_cons(TokenView::Colon, spec_lex(s.drop_first()))
        } else if c == '{' {
            lex_cons(TokenView::LeftBrace, spec_lex(s.drop_first()))
        } else if c == '}' {
            lex_cons(TokenView::RightBrace, spec_lex(s.drop_first()))
        } else if c == '[' {
            lex_cons(TokenView::LeftBracket, spec_lex(s.drop_first()))
        } else if c == ']' {
            lex_cons(TokenView::RightBracket, spec_lex(s.drop_first()))
        } else if c == '(' {
            lex_cons(TokenView::LeftParen, spec_lex(s.drop_first()))
        } else if c == ')' {
            lex_cons(TokenView::RightParen, spec_lex(s.drop_first()))
        } else if c == '+' {
            lex_cons(TokenView::Plus, spec_lex(s.drop_first()))
        } else if c == '-' {
            lex_cons(TokenView::Minus, spec_lex(s.drop_first()))
        } else if is_radix_digit(c, 10) {
            match spec_lex_number(s) {
                Some((t, rest)) => lex_cons(t, spec_lex(rest)),
                None => None,
            }
        } else if c == 'h' && s.len() >= 2 && s[1] == '"' {
            match spec_lex_hex_byte_data(s) {
                Some((t, rest)) => lex_cons(t, spec_lex(rest)),
                None => None,
            }
        } else if c == 'd' && s.len() >= 2 && s[1] == '"' {
            match spec_lex_date(s) {
                Some((t, rest)) => lex_cons(t, spec_lex(rest)),
                None => None,
            }
        } else if c == 'r' && s.len() >= 2 && s[1] == '"' {
            match spec_lex_raw_string(s) {
                Some((t, rest)) => lex_cons(t, spec_lex(rest)),
                None => None,
            }
        } else if c == 'r' && s.len() >= 3 && s[1] == '#' && s[2] == '"' {
            match spec_lex_raw_string_hash(s) {
                Some((t, rest)) => lex_cons(t, spec_lex(rest)),
                None => None,
            }
        } else if c == 'r' && s.len() >= 3 && s[1] == '|' && s[2] == '"' {
            match spec_lex_auto_trimmed(s) {
                Some((t, rest)) => lex_cons(t, spec_lex(rest)),
                None => None,
            }
        } else if c == '"' {
            if s.len() >= 3 && s[1] == '"' && s[2] == '"' {
                match spec_lex_document_comment(s) {
                    Some((t, rest)) => lex_cons(t, spec_lex(rest)),
                    None => None,
                }
            } else {
                match spec_lex_string(s) {
                    Some((t, rest)) => lex_cons(t, spec_lex(rest)),
                    None => None,
                }
            }
        } else if c == '\'' {
            match spec_lex_char(s) {
                Some((t, rest)) => lex_cons(t, spec_lex(rest)),
                None => None,
            }
        } else if c == '/' && s.len() >= 2 && s[1] == '/' {
            match spec_lex_line_comment(s) {
                Some((t, rest)) => lex_cons(t, spec_lex(rest)),
                None => None,
            }
        } else if c == '/' && s.len() >= 2 && s[1] == '*' {
            match spec_lex_block_comment(s) {
                Some((t, rest)) => lex_cons(t, spec_lex(rest)),
                None => None,
            }
        } else if is_ident_start(c) {
            match spec_lex_identifier(s) {
                Some((t, rest)) => lex_cons(t, spec_lex(rest)),
                None => None,
            }
        } else {
            None
        }
    }
}

#[via_fn]
proof fn spec_lex_dec(s: Seq<char>) {
    if s.len() > 0 {
        let c = s[0];
        if is_radix_digit(c, 10) {
            lemma_lex_number_len(s);
        } else if c == 'h' && s.len() >= 2 && s[1] == '"' {
            lemma_bytes_body_len(s.skip(2), None);
        } else if c == 'd' && s.len() >= 2 && s[1] == '"' {
            lemma_date_scan_len(s.skip(2));
        } else if c == 'r' && s.len() >= 2 && s[1] == '"' {
            lemma_raw_body_len(s.skip(2));
        } else if c == 'r' && s.len() >= 3 && s[1] == '#' && s[2] == '"' {
            lemma_raw_hash_body_len(s.skip(3));
        } else if c == 'r' && s.len() >= 3 && s[1] == '|' && s[2] == '"' {
            lemma_lex_auto_trimmed_len(s);
        } else if c == '"' {
            if s.len() >= 3 && s[1] == '"' && s[2] == '"' {
                lemma_lex_document_comment_len(s);
            } else {
                lemma_string_body_len(s.drop_first());
            }
        } else if c == '\'' {
            lemma_lex_char_len(s);
        } else if c == '/' && s.len() >= 2 && s[1] == '/' {
            lemma_line_body_len(s.skip(2));
        } else if c == '/' && s.len() >= 2 && s[1] == '*' {
            lemma_block_body_len(s.skip(2), 1);
        } else if is_ident_start(c) {
            lemma_lex_identifier_len(s);
        }
    }
}

proof fn lemma_views_push(ts: Seq<Token>, t: Token)
    ensures
        token_views(ts.push(t)) == token_views(ts).push(t@),
{
    assert(token_views(ts.push(t)) =~= token_views(ts).push(t@));
}

proof fn lemma_push_cons(a: Seq<TokenView>, x: TokenView, b: Seq<TokenView>)
    ensures
        a + (seq![x] + b) == a.push(x) + b,
{
    assert(a + (seq![x] + b) =~= a.push(x) + b);
}

fn push_token(tokens: &mut Vec<Token>, t: Token)
    ensures
        token_views(final(tokens)@) == token_views(old(tokens)@).push(t@),
        final(tokens)@.len() == old(tokens)@.len() + 1,
{
    let ghost tpre = tokens@;
    let ghost tv = t@;
    tokens.push(t);
    proof {
        lemma_views_push(tpre, tokens@[tokens@.len() - 1]);
        assert(tpre.push(tokens@[tokens@.len() - 1]) =~= tokens@);
    }
}

/// Tokenizes the whole remaining input into the raw token sequence that
/// `spec_lex` prescribes, or fails where it prescribes an error.
pub fn lex(iter: &mut Cursor<char>) -> (r: Result<Vec<Token>, AsonError>)
    ensures
        match r {
            Ok(tokens) => spec_lex(old(iter)@) == Some(token_views(tokens@)),
            Err(_) => spec_lex(old(iter)@) is None,
        },
{
    let mut tokens: Vec<Token> = Vec::new();
    proof {
        assert(token_views(Seq::<Token>::empty()) =~= Seq::<TokenView>::empty());
    }
    loop
        invariant
            match spec_lex(iter@) {
                Some(ts) => spec_lex(old(iter)@) == Some(token_views(tokens@) + ts),
                None => spec_lex(old(iter)@) is None,
            },
        decreases iter@.len(),
    {
        let ghost pre = iter@;
        let ghost vpre = token_views(tokens@);
        let c: char = match iter.peek(0) {
            None => {
                proof {
                    assert(token_views(tokens@) + Seq::<TokenView>::empty() =~= token_views(
                        tokens@,
                    ));
                }
                return Ok(tokens);
            },
            Some(c) => *c,
        };
        if c == ' ' || c == '\t' {
            iter.next();
        } else if c == '\r' {
            if iter.equals(1, '\n') {
                iter.next();
                iter.next();
                proof {
                    assert(pre.drop_first().drop_first() =~= pre.skip(2));
                }
            } else {
                iter.next();
            }
            push_token(&mut tokens, Token::NewLine);
            proof {
                if spec_lex(iter@) is Some {
                    lemma_push_cons(vpre, TokenView::NewLine, spec_lex(iter@)->Some_0);
                }
            }
        } else if c == '\n' {
            iter.next();
            push_token(&mut tokens, Token::NewLine);
            proof {
                if spec_lex(iter@) is Some {
                    lemma_push_cons(vpre, TokenView::NewLine, spec_lex(iter@)->Some_0);
                }
            }
        } else if c == ',' {
            iter.next();
            push_token(&mut tokens, Token::Comma);
            proof {
                if spec_lex(iter@) is Some {
                    lemma_push_cons(vpre, TokenView::Comma, spec_lex(iter@)->Some_0);
                }
            }
        } else if c == ':' {
            iter.next();
            push_token(&mut tokens, Token::Colon);
            proof {
                if spec_lex(iter@) is Some {
                    lemma_push_cons(vpre, TokenView::Colon, spec_lex(iter@)->Some_0);
                }
            }
        } else if c == '{' {
            iter.next();
            push_token(&mut tokens, Token::LeftBrace);
            proof {
                if spec_lex(iter@) is Some {
                    lemma_push_cons(vpre, TokenView::LeftBrace, spec_lex(iter@)->Some_0);
                }
            }
        } else if c == '}' {
            iter.next();
            push_token(&mut tokens, Token::RightBrace);
            proof {
                if spec_lex(iter@) is Some {
                    lemma_push_cons(vpre, TokenView::RightBrace, spec_lex(iter@)->Some_0);
                }
            }
        } else if c == '[' {
            iter.next();
            push_token(&mut tokens, Token::LeftBracket);
            proof {
                if spec_lex(iter@) is Some {
                    lemma_push_cons(vpre, TokenView::LeftBracket, spec_lex(iter@)->Some_0);
                }
            }
        } else if c == ']' {
            iter.next();
            push_token(&mut tokens, Token::RightBracket);
            proof {
                if spec_lex(iter@) is Some {
                    lemma_push_cons(vpre, TokenView::RightBracket, spec_lex(iter@)->Some_0);
                }
            }
        } else if c == '(' {
            iter.next();
            push_token(&mut tokens, Token::LeftParen);
            proof {
                if spec_lex(iter@) is Some {
                    lemma_push_cons(vpre, TokenView::LeftParen, spec_lex(iter@)->Some_0);
                }
            }
        } else if c == ')' {
            iter.next();
            push_token(&mut tokens, Token::RightParen);
            proof {
                if spec_lex(iter@) is Some {
                    lemma_push_cons(vpre, TokenView::RightParen, spec_lex(iter@)->Some_0);
                }
            }
        } else if c == '+' {
            iter.next();
            push_token(&mut tokens, Token::Plus);
            proof {
                if spec_lex(iter@) is Some {
                    lemma_push_cons(vpre, TokenView::Plus, spec_lex(iter@)->Some_0);
                }
            }
        } else if c == '-' {
            iter.next();
            push_token(&mut tokens, Token::Minus);
            proof {
                if spec_lex(iter@) is Some {
                    lemma_push_cons(vpre, TokenView::Minus, spec_lex(iter@)->Some_0);
                }
            }
        } else if dec_digit(c) {
            proof {
                lemma_lex_number_len(pre);
            }
            match lex_number(iter) {
                Err(e) => {
                    return Err(e);
                },
                Ok(t) => {
                    let ghost tv = t@;
                    push_token(&mut tokens, t);
                    proof {
                        if spec_lex(iter@) is Some {
                            lemma_push_cons(vpre, tv, spec_lex(iter@)->Some_0);
                        }
                    }
                },
            }
        } else if c == 'h' && iter.equals(1, '"') {
            proof {
                lemma_bytes_body_len(pre.skip(2), None);
            }
            match lex_hex_byte_data(iter) {
                Err(e) => {
                    return Err(e);
                },
                Ok(t) => {
                    let ghost tv = t@;
                    push_token(&mut tokens, t);
                    proof {
                        if spec_lex(iter@) is Some {
                            lemma_push_cons(vpre, tv, spec_lex(iter@)->Some_0);
                        }
                    }
                },
            }
        } else if c == 'd' && iter.equals(1, '"') {
            proof {
                lemma_date_scan_len(pre.skip(2));
            }
            match lex_date(iter) {
                Err(e) => {
                    return Err(e);
                },
                Ok(t) => {
                    let ghost tv = t@;
                    push_token(&mut tokens, t);
                    proof {
                        if spec_lex(iter@) is Some {
                            lemma_push_cons(vpre, tv, spec_lex(iter@)->Some_0);
                        }
                    }
                },
            }
        } else if c == 'r' && iter.equals(1, '"') {
            proof {
                lemma_raw_body_len(pre.skip(2));
            }
            match lex_raw_string(iter) {
                Err(e) => {
                    return Err(e);
                },
                Ok(t) => {
                    let ghost tv = t@;
                    push_token(&mut tokens, t);
                    proof {
                        if spec_lex(iter@) is Some {
                            lemma_push_cons(vpre, tv, spec_lex(iter@)->Some_0);
                        }
                    }
                },
            }
        } else if c == 'r' && iter.equals(1, '#') && iter.equals(2, '"') {
            proof {
                lemma_raw_hash_body_len(pre.skip(3));
            }
            match lex_raw_string_with_hash(iter) {
                Err(e) => {
                    return Err(e);
                },
                Ok(t) => {
                    let ghost tv = t@;
                    push_token(&mut tokens, t);
                    proof {
                        if spec_lex(iter@) is Some {
                            lemma_push_cons(vpre, tv, spec_lex(iter@)->Some_0);
                        }
                    }
                },
            }
        } else if c == 'r' && iter.equals(1, '|') && iter.equals(2, '"') {
            proof {
                lemma_lex_auto_trimmed_len(pre);
            }
            match lex_auto_trimmed_string(iter) {
                Err(e) => {
                    return Err(e);
                },
                Ok(t) => {
                    let ghost tv = t@;
                    push_token(&mut tokens, t);
                    proof {
                        if spec_lex(iter@) is Some {
                            lemma_push_cons(vpre, tv, spec_lex(iter@)->Some_0);
                        }
                    }
                },
            }
        } else if c == '"' {
            if iter.equals(1, '"') && iter.equals(2, '"') {
                proof {
                    lemma_lex_document_comment_len(pre);
                }
                match lex_document_comment(iter) {
                    Err(e) => {
                        return Err(e);
                    },
                    Ok(t) => {
                        let ghost tv = t@;
                        push_token(&mut tokens, t);
                        proof {
                            if spec_lex(iter@) is Some {
                                lemma_push_cons(vpre, tv, spec_lex(iter@)->Some_0);
                            }
                        }
                    },
                }
            } else {
                proof {
                    lemma_string_body_len(pre.drop_first());
                }
                match lex_string(iter) {
                    Err(e) => {
                        return Err(e);
                    },
                    Ok(t) => {
                        let ghost tv = t@;
                        push_token(&mut tokens, t);
                        proof {
                            if spec_lex(iter@) is Some {
                                lemma_push_cons(vpre, tv, spec_lex(iter@)->Some_0);
                            }
                        }
                    },
                }
            }
        } else if c == '\'' {
            proof {
                lemma_lex_char_len(pre);
            }
            match lex_char(iter) {
                Err(e) => {
                    return Err(e);
                },
                Ok(t) => {
                    let ghost tv = t@;
                    push_token(&mut tokens, t);
                    proof {
                        if spec_lex(iter@) is Some {
                            lemma_push_cons(vpre, tv, spec_lex(iter@)->Some_0);
                        }
                    }
                },
            }
        } else if c == '/' && iter.equals(1, '/') {
            proof {
                lemma_line_body_len(pre.skip(2));
            }
            match lex_line_comment(iter) {
                Err(e) => {
                    return Err(e);
                },
                Ok(t) => {
                    let ghost tv = t@;
                    push_token(&mut tokens, t);
                    proof {
                        if spec_lex(iter@) is Some {
                            lemma_push_cons(vpre, tv, spec_lex(iter@)->Some_0);
                        }
                    }
                },
            }
        } else if c == '/' && iter.equals(1, '*') {
            proof {
                lemma_block_body_len(pre.skip(2), 1);
            }
            match lex_block_comment(iter) {
                Err(e) => {
                    return Err(e);
                },
                Ok(t) => {
                    let ghost tv = t@;
                    push_token(&mut tokens, t);
                    proof {
                        if spec_lex(iter@) is Some {
                            lemma_push_cons(vpre, tv, spec_lex(iter@)->Some_0);
                        }
                    }
                },
            }
        } else if ident_char(c) {
            proof {
                lemma_lex_identifier_len(pre);
            }
            match lex_identifier_or_keyword(iter) {
                Err(e) => {
                    return Err(e);
                },
                Ok(t) => {
                    let ghost tv = t@;
                    push_token(&mut tokens, t);
                    proof {
                        if spec_lex(iter@) is Some {
                            lemma_push_cons(vpre, tv, spec_lex(iter@)->Some_0);
                        }
                    }
                },
            }
        } else {
            return err_tokens("Unexpected char.");
        }
    }
}

fn err_tokens(text: &str) -> (r: Result<Vec<Token>, AsonError>)
    ensures
        r is Err,
{
    Err(AsonError::Message(text.to_owned()))
}

} // verus!
