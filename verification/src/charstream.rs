//! The character source: decodes a byte sequence into Unicode scalar
//! values, one per call, failing on malformed encoding. The tokenizer's
//! cursor sits on top of what this yields.
use vstd::prelude::*;

use crate::foreign::char_from_u32;
use crate::AsonError;

verus! {

pub struct CharStream {
    bytes: Vec<u8>,
}

impl View for CharStream {
    type V = Seq<u8>;

    closed spec fn view(&self) -> Seq<u8> {
        self.bytes@
    }
}

/// What one decoding step yields on a byte sequence: the end of input, a
/// scalar value and the bytes that follow its encoding, or a decoding
/// error (`None`). A leading byte names its width by its range; the low
/// six bits of each following byte join the leading byte's low bits; a
/// code point outside the scalar values (a surrogate, or past U+10FFFF)
/// is an error.
pub open spec fn spec_read_char(s: Seq<u8>) -> Option<(Option<char>, Seq<u8>)> {
    if s.len() == 0 {
        Some((None, s))
    } else {
        let b0 = s[0];
        if b0 < 0x80 {
            Some((Some(b0 as char), s.drop_first()))
        } else if 0xc0 <= b0 && b0 < 0xe0 {
            if s.len() < 2 {
                None
            } else {
                let v = (b0 - 0xc0) as u32 * 64 + (s[1] & 0x3f) as u32;
                if vstd::utf8::is_scalar(v as u32) {
                    Some((Some((v as u32) as char), s.skip(2)))
                } else {
                    None
                }
            }
        } else if 0xe0 <= b0 && b0 < 0xf0 {
            if s.len() < 3 {
                None
            } else {
                let v = (b0 - 0xe0) as u32 * 0x1000 + (s[1] & 0x3f) as u32 * 64 + (s[2]
                    & 0x3f) as u32;
                if vstd::utf8::is_scalar(v as u32) {
                    Some((Some((v as u32) as char), s.skip(3)))
                } else {
                    None
                }
            }
        } else if 0xf0 <= b0 && b0 < 0xf8 {
            if s.len() < 4 {
                None
            } else {
                let v = (b0 - 0xf0) as u32 * 0x40000 + (s[1] & 0x3f) as u32 * 0x1000 + (s[2]
                    & 0x3f) as u32 * 64 + (s[3] & 0x3f) as u32;
                if vstd::utf8::is_scalar(v as u32) {
                    Some((Some((v as u32) as char), s.skip(4)))
                } else {
                    None
                }
            }
        } else {
            None
        }
    }
}

impl CharStream {
    /// Wraps the bytes of a document.
    pub fn new(bytes: Vec<u8>) -> (s: CharStream)
        ensures
            s@ == bytes@,
    {
        CharStream { bytes }
    }

    /// Takes the next byte; `None` at the end of input.
    pub fn read_byte(&mut self) -> (r: Option<u8>)
        ensures
            old(self)@.len() == 0 ==> r is None && final(self)@ == old(self)@,
            old(self)@.len() > 0 ==> r == Some(old(self)@[0]) && final(self)@ == old(
                self,
            )@.drop_first(),
    {
        if self.bytes.len() > 0 {
            let b = self.bytes.remove(0);
            proof {
                assert(self.bytes@ =~= old(self)@.drop_first());
            }
            Some(b)
        } else {
            None
        }
    }

    /// Takes the next two bytes; `None` at the end of input; fewer than
    /// two remaining bytes are an incomplete encoding.
    pub fn read_two_bytes(&mut self) -> (r: Result<Option<[u8; 2]>, AsonError>)
        ensures
            match r {
                Ok(None) => old(self)@.len() == 0 && final(self)@ == old(self)@,
                Ok(Some(pair)) => old(self)@.len() >= 2 && pair@ == old(self)@.take(2) && final(self)@ == old(self)@.skip(2),
                Err(_) => old(self)@.len() == 1,
            },
    {
        if self.bytes.len() == 0 {
            Ok(None)
        } else if self.bytes.len() < 2 {
            Err(AsonError::Message("Incomplete UTF-8 character stream.".to_owned()))
        } else {
            let a = self.bytes.remove(0);
            let b = self.bytes.remove(0);
            proof {
                assert(self.bytes@ =~= old(self)@.skip(2));
            }
            let pair: [u8; 2] = [a, b];
            proof {
                assert(pair@ =~= old(self)@.take(2));
            }
            Ok(Some(pair))
        }
    }

    /// Takes the next three bytes; `None` at the end of input; fewer than
    /// three remaining bytes are an incomplete encoding.
    pub fn read_three_bytes(&mut self) -> (r: Result<Option<[u8; 3]>, AsonError>)
        ensures
            match r {
                Ok(None) => old(self)@.len() == 0 && final(self)@ == old(self)@,
                Ok(Some(triple)) => old(self)@.len() >= 3 && triple@ == old(self)@.take(3) && final(self)@ == old(self)@.skip(3),
                Err(_) => 1 <= old(self)@.len() < 3,
            },
    {
        if self.bytes.len() == 0 {
            Ok(None)
        } else if self.bytes.len() < 3 {
            Err(AsonError::Message("Incomplete UTF-8 character stream.".to_owned()))
        } else {
            let a = self.bytes.remove(0);
            let b = self.bytes.remove(0);
            let c = self.bytes.remove(0);
            proof {
                assert(self.bytes@ =~= old(self)@.skip(3));
            }
            let triple: [u8; 3] = [a, b, c];
            proof {
                assert(triple@ =~= old(self)@.take(3));
            }
            Ok(Some(triple))
        }
    }

    /// Decodes the next scalar value, as `spec_read_char` prescribes:
    /// `Ok(None)` at the end of input, an error on malformed encoding or
    /// on a code point that is no scalar value.
    pub fn read_char(&mut self) -> (r: Result<Option<char>, AsonError>)
        ensures
            match r {
                Ok(oc) => match spec_read_char(old(self)@) {
                    Some((sc, rest)) => oc == sc && final(self)@ == rest,
                    None => false,
                },
                Err(_) => spec_read_char(old(self)@) is None,
            },
    {
        let b0: u8 = match self.read_byte() {
            None => {
                return Ok(None);
            },
            Some(b) => b,
        };
        if b0 < 0x80 {
            match char_from_u32(b0 as u32) {
                Some(c) => {
                    proof {
                        vstd::utf8::char_u32_cast(c, b0 as u32);
                    }
                    Ok(Some(c))
                },
                None => Err(AsonError::Message("Incorrect UTF-8 character stream.".to_owned())),
            }
        } else if 0xc0 <= b0 && b0 < 0xe0 {
            let b1: u8 = match self.read_byte() {
                None => {
                    return Err(
                        AsonError::Message("Incomplete UTF-8 character stream.".to_owned()),
                    );
                },
                Some(b) => b,
            };
            proof {
                assert(old(self)@.drop_first().drop_first() =~= old(self)@.skip(2));
                assert(b1 & 0x3f < 64) by (bit_vector);
            }
            let v: u32 = (b0 - 0xc0) as u32 * 64 + (b1 & 0x3f) as u32;
            match char_from_u32(v) {
                Some(c) => {
                    proof {
                        vstd::utf8::char_u32_cast(c, v);
                    }
                    Ok(Some(c))
                },
                None => Err(AsonError::Message("Incorrect UTF-8 character stream.".to_owned())),
            }
        } else if 0xe0 <= b0 && b0 < 0xf0 {
            let pair: [u8; 2] = match self.read_two_bytes() {
                Err(e) => {
                    return Err(e);
                },
                Ok(None) => {
                    return Err(
                        AsonError::Message("Incomplete UTF-8 character stream.".to_owned()),
                    );
                },
                Ok(Some(p)) => p,
            };
            let b1: u8 = pair[0];
            let b2: u8 = pair[1];
            proof {
                assert(old(self)@.drop_first().skip(2) =~= old(self)@.skip(3));
                assert(b1 == old(self)@[1] && b2 == old(self)@[2]);
                assert(b1 & 0x3f < 64) by (bit_vector);
                assert(b2 & 0x3f < 64) by (bit_vector);
            }
            let v: u32 = (b0 - 0xe0) as u32 * 0x1000 + (b1 & 0x3f) as u32 * 64 + (b2
                & 0x3f) as u32;
            match char_from_u32(v) {
                Some(c) => {
                    proof {
                        vstd::utf8::char_u32_cast(c, v);
                    }
                    Ok(Some(c))
                },
                None => Err(AsonError::Message("Incorrect UTF-8 character stream.".to_owned())),
            }
        } else if 0xf0 <= b0 && b0 < 0xf8 {
            let triple: [u8; 3] = match self.read_three_bytes() {
                Err(e) => {
                    return Err(e);
                },
                Ok(None) => {
                    return Err(
                        AsonError::Message("Incomplete UTF-8 character stream.".to_owned()),
                    );
                },
                Ok(Some(t)) => t,
            };
            let b1: u8 = triple[0];
            let b2: u8 = triple[1];
            let b3: u8 = triple[2];
            proof {
                assert(old(self)@.drop_first().skip(3) =~= old(self)@.skip(4));
                assert(b1 == old(self)@[1] && b2 == old(self)@[2] && b3 == old(self)@[3]);
                assert(b1 & 0x3f < 64) by (bit_vector);
                assert(b2 & 0x3f < 64) by (bit_vector);
                assert(b3 & 0x3f < 64) by (bit_vector);
            }
            let v: u32 = (b0 - 0xf0) as u32 * 0x40000 + (b1 & 0x3f) as u32 * 0x1000 + (b2
                & 0x3f) as u32 * 64 + (b3 & 0x3f) as u32;
            match char_from_u32(v) {
                Some(c) => {
                    proof {
                        vstd::utf8::char_u32_cast(c, v);
                    }
                    Ok(Some(c))
                },
                None => Err(AsonError::Message("Incorrect UTF-8 character stream.".to_owned())),
            }
        } else {
            Err(AsonError::Message("Incorrect UTF-8 character stream.".to_owned()))
        }
    }

    /// Decodes the next scalar value; the iterator face of the stream.
    pub fn next(&mut self) -> (r: Result<Option<char>, AsonError>)
        ensures
            match r {
                Ok(oc) => match spec_read_char(old(self)@) {
                    Some((sc, rest)) => oc == sc && final(self)@ == rest,
                    None => false,
                },
                Err(_) => spec_read_char(old(self)@) is None,
            },
    {
        self.read_char()
    }

    /// Decodes the whole remaining input into scalar values, as
    /// `spec_decode_all` prescribes.
    pub fn read_all(&mut self) -> (r: Result<Vec<char>, AsonError>)
        ensures
            match r {
                Ok(chars) => spec_decode_all(old(self)@) == Some(chars@),
                Err(_) => spec_decode_all(old(self)@) is None,
            },
    {
        let mut chars: Vec<char> = Vec::new();
        proof {
            if spec_decode_all(self@) is Some {
                assert(Seq::<char>::empty() + spec_decode_all(self@)->Some_0 =~= spec_decode_all(
                    self@,
                )->Some_0);
            }
        }
        loop
            invariant
                match spec_decode_all(self@) {
                    Some(cs) => spec_decode_all(old(self)@) == Some(chars@ + cs),
                    None => spec_decode_all(old(self)@) is None,
                },
            decreases self@.len(),
        {
            let ghost pre = self@;
            let ghost apre = chars@;
            match self.read_char() {
                Err(e) => {
                    return Err(e);
                },
                Ok(None) => {
                    proof {
                        assert(chars@ + Seq::<char>::empty() =~= chars@);
                    }
                    return Ok(chars);
                },
                Ok(Some(c)) => {
                    chars.push(c);
                    proof {
                        if pre.len() == 0 {
                            assert(false);
                        }
                        if spec_decode_all(self@) is Some {
                            assert(apre + (seq![c] + spec_decode_all(self@)->Some_0) =~= chars@
                                + spec_decode_all(self@)->Some_0);
                        }
                    }
                },
            }
        }
    }
}

/// Law: on a byte sequence that begins with a well-formed UTF-8 encoding of
/// a scalar value, one decoding step yields exactly that scalar and leaves
/// exactly the bytes after its encoding, where well-formedness, the scalar
/// and the encoding length are the standard UTF-8 notions.
pub proof fn lemma_read_char_decodes_utf8(s: Seq<u8>)
    requires
        vstd::utf8::valid_first_scalar(s),
    ensures
        spec_read_char(s) == Some(
            (
                Some(vstd::utf8::decode_first_scalar(s) as char),
                s.skip(vstd::utf8::length_of_first_scalar(s)),
            ),
        ),
{
    let b0 = s[0];
    if vstd::utf8::is_leading_byte_width_1(b0) {
        assert(b0 & 0x7f == b0) by (bit_vector)
            requires
                b0 <= 0x7f,
        ;
        assert(s.drop_first() =~= s.skip(1));
    } else if vstd::utf8::is_leading_byte_width_2(b0) {
        let b1 = s[1];
        let hi = (b0 & 0x1f) as u32;
        let c1 = (b1 & 0x3f) as u32;
        assert(b0 & 0x1f == (b0 - 0xc0) as u8) by (bit_vector)
            requires
                0xc0 <= b0 <= 0xdf,
        ;
        assert(b0 & 0x1f <= 0x1f && b1 & 0x3f <= 0x3f) by (bit_vector);
        assert((hi << 6u32) == hi * 64 && ((hi << 6u32) | c1) == (hi << 6u32) + c1) by (bit_vector)
            requires
                hi <= 0x1f,
                c1 <= 0x3f,
        ;
        assert((b0 - 0xc0) as u32 * 64 + c1 == vstd::utf8::codepoint_width_2(b0, b1));
    } else if vstd::utf8::is_leading_byte_width_3(b0) {
        let b1 = s[1];
        let b2 = s[2];
        let hi = (b0 & 0x0f) as u32;
        let c1 = (b1 & 0x3f) as u32;
        let c2 = (b2 & 0x3f) as u32;
        assert(b0 & 0x0f == (b0 - 0xe0) as u8) by (bit_vector)
            requires
                0xe0 <= b0 <= 0xef,
        ;
        assert(b0 & 0x0f <= 0x0f && b1 & 0x3f <= 0x3f && b2 & 0x3f <= 0x3f) by (bit_vector);
        assert((hi << 12u32) == hi * 0x1000 && (c1 << 6u32) == c1 * 64 && ((hi << 12u32) | (c1
            << 6u32) | c2) == (hi << 12u32) + (c1 << 6u32) + c2) by (bit_vector)
            requires
                hi <= 0x0f,
                c1 <= 0x3f,
                c2 <= 0x3f,
        ;
        assert((b0 - 0xe0) as u32 * 0x1000 + c1 * 64 + c2 == vstd::utf8::codepoint_width_3(
            b0,
            b1,
            b2,
        ));
    } else {
        let b1 = s[1];
        let b2 = s[2];
        let b3 = s[3];
        let hi = (b0 & 0x07) as u32;
        let c1 = (b1 & 0x3f) as u32;
        let c2 = (b2 & 0x3f) as u32;
        let c3 = (b3 & 0x3f) as u32;
        assert(b0 & 0x07 == (b0 - 0xf0) as u8) by (bit_vector)
            requires
                0xf0 <= b0 <= 0xf7,
        ;
        assert(b0 & 0x07 <= 0x07 && b1 & 0x3f <= 0x3f && b2 & 0x3f <= 0x3f && b3 & 0x3f <= 0x3f)
            by (bit_vector);
        assert((hi << 18u32) == hi * 0x40000 && (c1 << 12u32) == c1 * 0x1000 && (c2 << 6u32) == c2
            * 64 && ((hi << 18u32) | (c1 << 12u32) | (c2 << 6u32) | c3) == (hi << 18u32) + (c1
            << 12u32) + (c2 << 6u32) + c3) by (bit_vector)
            requires
                hi <= 0x07,
                c1 <= 0x3f,
                c2 <= 0x3f,
                c3 <= 0x3f,
        ;
        assert((b0 - 0xf0) as u32 * 0x40000 + c1 * 0x1000 + c2 * 64 + c3
            == vstd::utf8::codepoint_width_4(b0, b1, b2, b3));
    }
}

/// The scalar values of a whole byte sequence, or a decoding error.
pub open spec fn spec_decode_all(s: Seq<u8>) -> Option<Seq<char>>
    decreases s.len(),
{
    match spec_read_char(s) {
        None => None,
        Some((oc, rest)) => match oc {
            None => Some(Seq::empty()),
            Some(c) => match spec_decode_all(rest) {
                Some(cs) => Some(seq![c] + cs),
                None => None,
            },
        },
    }
}

} // verus!
