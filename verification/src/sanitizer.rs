//! The token-sanitizing pass: comments vanish, runs of commas and line
//! breaks fold into single NewLine separators, a leading and a trailing
//! separator are dropped, and a sign directly before a number literal is
//! folded into the literal.
use vstd::prelude::*;

use crate::cursor::Cursor;
use crate::token::{
    token_views, spec_f32_is_nan, spec_f32_neg, spec_f64_is_nan, spec_f64_neg, NumberLiteral,
    Token, TokenView,
};
use crate::token::{f32_bits_is_nan, f32_bits_neg, f64_bits_is_nan, f64_bits_neg};
use crate::AsonError;

verus! {

/// Whether a literal is a NaN of either precision: no sign applies to it.
pub open spec fn is_nan_literal(n: NumberLiteral) -> bool {
    match n {
        NumberLiteral::Float(b) => spec_f32_is_nan(b),
        NumberLiteral::Double(b) => spec_f64_is_nan(b),
        _ => false,
    }
}

/// The negated literal at the same width; `None` for the unsigned widths
/// and for NaN. The most negative value of a signed width stays itself,
/// as wrapping negation has it.
pub open spec fn spec_neg_literal(n: NumberLiteral) -> Option<NumberLiteral> {
    match n {
        NumberLiteral::Byte(v) => Some(
            NumberLiteral::Byte(
                if v == -0x80 {
                    v
                } else {
                    (-(v as int)) as i8
                },
            ),
        ),
        NumberLiteral::Short(v) => Some(
            NumberLiteral::Short(
                if v == -0x8000 {
                    v
                } else {
                    (-(v as int)) as i16
                },
            ),
        ),
        NumberLiteral::Int(v) => Some(
            NumberLiteral::Int(
                if v == -0x8000_0000 {
                    v
                } else {
                    (-(v as int)) as i32
                },
            ),
        ),
        NumberLiteral::Long(v) => Some(
            NumberLiteral::Long(
                if v == -0x8000_0000_0000_0000 {
                    v
                } else {
                    (-(v as int)) as i64
                },
            ),
        ),
        NumberLiteral::Float(b) => if spec_f32_is_nan(b) {
            None
        } else {
            Some(NumberLiteral::Float(spec_f32_neg(b)))
        },
        NumberLiteral::Double(b) => if spec_f64_is_nan(b) {
            None
        } else {
            Some(NumberLiteral::Double(spec_f64_neg(b)))
        },
        _ => None,
    }
}

/// Negates a number literal, exactly when a minus sign may apply to it.
fn neg_literal(n: &NumberLiteral) -> (r: Option<NumberLiteral>)
    ensures
        r == spec_neg_literal(*n),
{
    match n {
        NumberLiteral::Byte(v) => Some(
            NumberLiteral::Byte(
                if *v == -0x80i8 {
                    *v
                } else {
                    -*v
                },
            ),
        ),
        NumberLiteral::Short(v) => Some(
            NumberLiteral::Short(
                if *v == -0x8000i16 {
                    *v
                } else {
                    -*v
                },
            ),
        ),
        NumberLiteral::Int(v) => Some(
            NumberLiteral::Int(
                if *v == -0x8000_0000i32 {
                    *v
                } else {
                    -*v
                },
            ),
        ),
        NumberLiteral::Long(v) => Some(
            NumberLiteral::Long(
                if *v == -0x8000_0000_0000_0000i64 {
                    *v
                } else {
                    -*v
                },
            ),
        ),
        NumberLiteral::Float(b) => if f32_bits_is_nan(*b) {
            None
        } else {
            Some(NumberLiteral::Float(f32_bits_neg(*b)))
        },
        NumberLiteral::Double(b) => if f64_bits_is_nan(*b) {
            None
        } else {
            Some(NumberLiteral::Double(f64_bits_neg(*b)))
        },
        NumberLiteral::UByte(_) => None,
        NumberLiteral::UShort(_) => None,
        NumberLiteral::UInt(_) => None,
        NumberLiteral::ULong(_) => None,
    }
}

/// Whether a token is dropped or folded by the separator pass: a comment,
/// a line break or a comma.
pub open spec fn is_separator_like(t: TokenView) -> bool {
    t is Comment || t is NewLine || t is Comma
}

/// What remains after the leading line breaks and comments of a document.
pub open spec fn spec_skip_leading(ts: Seq<TokenView>) -> Seq<TokenView>
    decreases ts.len(),
{
    if ts.len() > 0 && (ts[0] is NewLine || ts[0] is Comment) {
        spec_skip_leading(ts.drop_first())
    } else {
        ts
    }
}

pub proof fn lemma_skip_leading_len(ts: Seq<TokenView>)
    ensures
        spec_skip_leading(ts).len() <= ts.len(),
        spec_skip_leading(ts).len() > 0 ==> !(spec_skip_leading(ts)[0] is NewLine)
            && !(spec_skip_leading(ts)[0] is Comment),
    decreases ts.len(),
{
    if ts.len() > 0 && (ts[0] is NewLine || ts[0] is Comment) {
        lemma_skip_leading_len(ts.drop_first());
    }
}

/// What remains after one run of separator-like tokens.
pub open spec fn spec_skip_seps(ts: Seq<TokenView>) -> Seq<TokenView>
    decreases ts.len(),
{
    if ts.len() > 0 && is_separator_like(ts[0]) {
        spec_skip_seps(ts.drop_first())
    } else {
        ts
    }
}

pub proof fn lemma_skip_seps_len(ts: Seq<TokenView>)
    ensures
        spec_skip_seps(ts).len() <= ts.len(),
        spec_skip_seps(ts).len() > 0 ==> !is_separator_like(spec_skip_seps(ts)[0]),
    decreases ts.len(),
{
    if ts.len() > 0 && is_separator_like(ts[0]) {
        lemma_skip_seps_len(ts.drop_first());
    }
}

/// The folding pass over the tokens after the leading separators: comments
/// vanish; a run of commas, line breaks and comments folds into one
/// NewLine; a plus sign must precede a number other than NaN and vanishes;
/// a minus sign must precede a signed number other than NaN and folds into
/// it; everything else passes through. `None` is an error.
pub open spec fn spec_fold(ts: Seq<TokenView>) -> Option<Seq<TokenView>>
    decreases ts.len(),
    via spec_fold_dec
{
    if ts.len() == 0 {
        Some(Seq::empty())
    } else {
        let t = ts[0];
        if t is Comment {
            spec_fold(ts.drop_first())
        } else if t is NewLine || t is Comma {
            match spec_fold(spec_skip_seps(ts.drop_first())) {
                Some(r) => Some(seq![TokenView::NewLine] + r),
                None => None,
            }
        } else if t is Plus {
            if ts.len() < 2 {
                None
            } else {
                match ts[1] {
                    TokenView::Number(n) => if is_nan_literal(n) {
                        None
                    } else {
                        spec_fold(ts.drop_first())
                    },
                    _ => None,
                }
            }
        } else if t is Minus {
            if ts.len() < 2 {
                None
            } else {
                match ts[1] {
                    TokenView::Number(n) => match spec_neg_literal(n) {
                        None => None,
                        Some(m) => match spec_fold(ts.skip(2)) {
                            Some(r) => Some(seq![TokenView::Number(m)] + r),
                            None => None,
                        },
                    },
                    _ => None,
                }
            }
        } else {
            match spec_fold(ts.drop_first()) {
                Some(r) => Some(seq![t] + r),
                None => None,
            }
        }
    }
}

#[via_fn]
proof fn spec_fold_dec(ts: Seq<TokenView>) {
    if ts.len() > 0 {
        lemma_skip_seps_len(ts.drop_first());
    }
}

/// The whole sanitizing pass: leading line breaks and comments are
/// dropped, the folding pass runs, and one trailing NewLine is dropped.
pub open spec fn spec_sanitize(ts: Seq<TokenView>) -> Option<Seq<TokenView>> {
    match spec_fold(spec_skip_leading(ts)) {
        None => None,
        Some(r) => Some(
            if r.len() > 0 && r.last() is NewLine {
                r.drop_last()
            } else {
                r
            },
        ),
    }
}

/// No token that the sanitizer folds away survives it: neither comments
/// nor commas nor sign tokens.
pub open spec fn no_folded_tokens(ts: Seq<TokenView>) -> bool {
    forall|i: int|
        0 <= i < ts.len() ==> !((#[trigger] ts[i]) is Comment) && !(ts[i] is Comma) && !(
        ts[i] is Plus) && !(ts[i] is Minus)
}

/// No two adjacent NewLine separators.
pub open spec fn no_adjacent_newlines(ts: Seq<TokenView>) -> bool {
    forall|i: int| 0 <= i < ts.len() - 1 ==> !((#[trigger] ts[i]) is NewLine && ts[i + 1] is NewLine)
}

proof fn lemma_fold_wf(ts: Seq<TokenView>)
    ensures
        match spec_fold(ts) {
            Some(r) => no_folded_tokens(r) && no_adjacent_newlines(r) && ((r.len() > 0
                && r[0] is NewLine) ==> (ts.len() > 0 && is_separator_like(ts[0]))),
            None => true,
        },
    decreases ts.len(),
{
    if ts.len() > 0 {
        let t = ts[0];
        if t is Comment {
            lemma_fold_wf(ts.drop_first());
        } else if t is NewLine || t is Comma {
            lemma_skip_seps_len(ts.drop_first());
            let rest = spec_skip_seps(ts.drop_first());
            lemma_fold_wf(rest);
            match spec_fold(rest) {
                Some(rp) => {
                    let r = seq![TokenView::NewLine] + rp;
                    assert forall|i: int|
                        0 <= i < r.len() implies !((#[trigger] r[i]) is Comment) && !(
                    r[i] is Comma) && !(r[i] is Plus) && !(r[i] is Minus) by {
                        if i > 0 {
                            assert(r[i] == rp[i - 1]);
                        }
                    }
                    assert forall|i: int|
                        0 <= i < r.len() - 1 implies !((#[trigger] r[i]) is NewLine && r[i
                        + 1] is NewLine) by {
                        if i == 0 {
                            assert(r[1] == rp[0]);
                        } else {
                            assert(r[i] == rp[i - 1]);
                            assert(r[i + 1] == rp[i]);
                        }
                    }
                },
                None => {},
            }
        } else if t is Plus {
            if ts.len() >= 2 {
                match ts[1] {
                    TokenView::Number(n) => {
                        if !is_nan_literal(n) {
                            lemma_fold_wf(ts.drop_first());
                        }
                    },
                    _ => {},
                }
            }
        } else if t is Minus {
            if ts.len() >= 2 {
                match ts[1] {
                    TokenView::Number(n) => {
                        match spec_neg_literal(n) {
                            None => {},
                            Some(m) => {
                                lemma_fold_wf(ts.skip(2));
                                match spec_fold(ts.skip(2)) {
                                    Some(rp) => {
                                        let r = seq![TokenView::Number(m)] + rp;
                                        assert forall|i: int|
                                            0 <= i < r.len() implies !((
                                        #[trigger] r[i]) is Comment) && !(r[i] is Comma) && !(
                                        r[i] is Plus) && !(r[i] is Minus) by {
                                            if i > 0 {
                                                assert(r[i] == rp[i - 1]);
                                            }
                                        }
                                        assert forall|i: int|
                                            0 <= i < r.len() - 1 implies !((
                                        #[trigger] r[i]) is NewLine && r[i + 1] is NewLine) by {
                                            if i > 0 {
                                                assert(r[i] == rp[i - 1]);
                                                assert(r[i + 1] == rp[i]);
                                            }
                                        }
                                    },
                                    None => {},
                                }
                            },
                        }
                    },
                    _ => {},
                }
            }
        } else {
            lemma_fold_wf(ts.drop_first());
            match spec_fold(ts.drop_first()) {
                Some(rp) => {
                    let r = seq![t] + rp;
                    assert forall|i: int|
                        0 <= i < r.len() implies !((#[trigger] r[i]) is Comment) && !(
                    r[i] is Comma) && !(r[i] is Plus) && !(r[i] is Minus) by {
                        if i > 0 {
                            assert(r[i] == rp[i - 1]);
                        }
                    }
                    assert forall|i: int|
                        0 <= i < r.len() - 1 implies !((#[trigger] r[i]) is NewLine && r[i
                        + 1] is NewLine) by {
                        if i > 0 {
                            assert(r[i] == rp[i - 1]);
                            assert(r[i + 1] == rp[i]);
                        }
                    }
                },
                None => {},
            }
        }
    }
}

/// Law: whatever token sequence goes in, a sanitized sequence holds no
/// comment, no comma and no sign token; no two NewLine separators stand
/// next to each other; the sequence does not end with a separator; and it
/// begins with one only where the document's first token after its leading
/// breaks and comments was itself a comma.
pub proof fn lemma_sanitize_wellformed(ts: Seq<TokenView>)
    ensures
        match spec_sanitize(ts) {
            Some(r) => no_folded_tokens(r) && no_adjacent_newlines(r) && (r.len() > 0 ==> !(r.last() is NewLine))
                && ((r.len() > 0 && r[0] is NewLine) ==> (spec_skip_leading(ts).len() > 0
                && spec_skip_leading(ts)[0] is Comma)),
            None => true,
        },
{
    let base = spec_skip_leading(ts);
    lemma_skip_leading_len(ts);
    lemma_fold_wf(base);
    match spec_fold(base) {
        Some(rp) => {
            let r = if rp.len() > 0 && rp.last() is NewLine {
                rp.drop_last()
            } else {
                rp
            };
            assert forall|i: int|
                0 <= i < r.len() implies !((#[trigger] r[i]) is Comment) && !(r[i] is Comma) && !(
            r[i] is Plus) && !(r[i] is Minus) by {
                assert(r[i] == rp[i]);
            }
            assert forall|i: int|
                0 <= i < r.len() - 1 implies !((#[trigger] r[i]) is NewLine && r[i
                + 1] is NewLine) by {
                assert(r[i] == rp[i]);
                assert(r[i + 1] == rp[i + 1]);
            }
            if rp.len() > 0 && rp.last() is NewLine {
                if r.len() > 0 {
                    assert(r.last() == rp[rp.len() - 2]);
                    assert(!(rp[rp.len() - 2] is NewLine && rp[rp.len() - 1] is NewLine));
                }
            }
            if r.len() > 0 && r[0] is NewLine {
                assert(rp[0] is NewLine);
                assert(base.len() > 0 && is_separator_like(base[0]));
            }
        },
        None => {},
    }
}

fn err_tokens(text: &str) -> (r: Result<Vec<Token>, AsonError>)
    ensures
        r is Err,
{
    Err(AsonError::Message(text.to_owned()))
}

/// What the folding pass will do at the current token.
enum Action {
    DropOne,
    FoldSeps,
    DropPlus,
    FoldMinus(NumberLiteral),
    Pass,
}

/// Whether the cursor stands at a leading line break or comment.
fn at_leading(iter: &Cursor<Token>) -> (b: bool)
    ensures
        b == (iter@.len() > 0 && (token_views(iter@)[0] is NewLine || token_views(
            iter@,
        )[0] is Comment)),
{
    match iter.peek(0) {
        Some(t) => matches!(t, Token::NewLine) || matches!(t, Token::Comment(_)),
        None => false,
    }
}

/// Whether the cursor stands at a separator-like token.
fn at_separator(iter: &Cursor<Token>) -> (b: bool)
    ensures
        b == (iter@.len() > 0 && is_separator_like(token_views(iter@)[0])),
{
    match iter.peek(0) {
        Some(t) => matches!(t, Token::NewLine) || matches!(t, Token::Comma) || matches!(
            t,
            Token::Comment(_),
        ),
        None => false,
    }
}

/// Normalizes a raw token sequence into the effective one that `spec_sanitize`
/// prescribes, or fails where it prescribes an error.
pub fn sanitize(tokens: Vec<Token>) -> (r: Result<Vec<Token>, AsonError>)
    ensures
        match r {
            Ok(eff) => spec_sanitize(token_views(tokens@)) == Some(token_views(eff@)),
            Err(_) => spec_sanitize(token_views(tokens@)) is None,
        },
{
    let ghost orig = token_views(tokens@);
    let mut iter: Cursor<Token> = Cursor::new(tokens);
    while at_leading(&iter)
        invariant
            spec_skip_leading(orig) == spec_skip_leading(token_views(iter@)),
        decreases iter@.len(),
    {
        proof {
            assert(token_views(iter@)[0] == iter@[0]@);
            assert(token_views(iter@.drop_first()) =~= token_views(iter@).drop_first());
        }
        iter.next();
    }
    proof {
        assert(spec_skip_leading(token_views(iter@)) =~= token_views(iter@));
    }
    let ghost base = token_views(iter@);
    let mut effective: Vec<Token> = Vec::new();
    proof {
        assert(token_views(Seq::<Token>::empty()) =~= Seq::<TokenView>::empty());
    }
    loop
        invariant
            match spec_fold(token_views(iter@)) {
                Some(r) => spec_fold(base) == Some(token_views(effective@) + r),
                None => spec_fold(base) is None,
            },
        decreases iter@.len(),
    {
        let ghost pre = token_views(iter@);
        let ghost vpre = token_views(effective@);
        proof {
            if iter@.len() > 0 {
                assert(pre[0] == iter@[0]@);
                assert(token_views(iter@.drop_first()) =~= pre.drop_first());
            }
        }
        let action: Action = match iter.peek(0) {
            None => {
                proof {
                    assert(token_views(effective@) + Seq::<TokenView>::empty() =~= token_views(
                        effective@,
                    ));
                }
                if effective.len() > 0 {
                    let last_is_newline: bool = matches!(
                        &effective[effective.len() - 1],
                        Token::NewLine,
                    );
                    if last_is_newline {
                        let ghost epre = token_views(effective@);
                        effective.pop();
                        proof {
                            assert(token_views(effective@) =~= epre.drop_last());
                        }
                    }
                }
                return Ok(effective);
            },
            Some(t) => match t {
                Token::Comment(_) => Action::DropOne,
                Token::NewLine | Token::Comma => Action::FoldSeps,
                Token::Plus => match iter.peek(1) {
                    Some(Token::Number(n)) => {
                        let nan: bool = match n {
                            NumberLiteral::Float(b) => f32_bits_is_nan(*b),
                            NumberLiteral::Double(b) => f64_bits_is_nan(*b),
                            _ => false,
                        };
                        if nan {
                            return err_tokens("The plus sign cannot be added to NaN.");
                        }
                        Action::DropPlus
                    },
                    Some(_) => {
                        return err_tokens("The plus sign cannot be added to other than numbers.");
                    },
                    None => {
                        return Err(
                            AsonError::UnexpectedEndOfDocument(
                                "Unexpected end of document.".to_owned(),
                            ),
                        );
                    },
                },
                Token::Minus => match iter.peek(1) {
                    Some(Token::Number(n)) => match neg_literal(n) {
                        Some(m) => Action::FoldMinus(m),
                        None => {
                            return err_tokens(
                                "The minus sign cannot be added to unsigned numbers or NaN.",
                            );
                        },
                    },
                    Some(_) => {
                        return err_tokens("The minus sign cannot be added to other than numbers.");
                    },
                    None => {
                        return Err(
                            AsonError::UnexpectedEndOfDocument(
                                "Unexpected end of document.".to_owned(),
                            ),
                        );
                    },
                },
                _ => Action::Pass,
            },
        };
        match action {
            Action::DropOne => {
                iter.next();
            },
            Action::FoldSeps => {
                iter.next();
                while at_separator(&iter)
                    invariant
                        iter@.len() < pre.len(),
                        spec_skip_seps(pre.drop_first()) == spec_skip_seps(token_views(iter@)),
                    decreases iter@.len(),
                {
                    proof {
                        assert(token_views(iter@)[0] == iter@[0]@);
                        assert(token_views(iter@.drop_first()) =~= token_views(
                            iter@,
                        ).drop_first());
                    }
                    iter.next();
                }
                proof {
                    assert(spec_skip_seps(token_views(iter@)) =~= token_views(iter@));
                }
                effective.push(Token::NewLine);
                proof {
                    assert(token_views(effective@) =~= vpre.push(TokenView::NewLine));
                    if spec_fold(token_views(iter@)) is Some {
                        assert(vpre + (seq![TokenView::NewLine] + spec_fold(
                            token_views(iter@),
                        )->Some_0) =~= token_views(effective@) + spec_fold(
                            token_views(iter@),
                        )->Some_0);
                    }
                }
            },
            Action::DropPlus => {
                iter.next();
            },
            Action::FoldMinus(m) => {
                proof {
                    assert(pre[1] == iter@[1]@);
                    assert(token_views(iter@.drop_first().drop_first()) =~= pre.skip(2));
                }
                iter.next();
                iter.next();
                let ghost mv = m;
                effective.push(Token::Number(m));
                proof {
                    assert(token_views(effective@) =~= vpre.push(TokenView::Number(mv)));
                    if spec_fold(token_views(iter@)) is Some {
                        assert(vpre + (seq![TokenView::Number(mv)] + spec_fold(
                            token_views(iter@),
                        )->Some_0) =~= token_views(effective@) + spec_fold(
                            token_views(iter@),
                        )->Some_0);
                    }
                }
            },
            Action::Pass => {
                let t: Token = match iter.next() {
                    Some(t) => t,
                    None => {
                        proof {
                            assert(false);
                        }
                        Token::NewLine
                    },
                };
                let ghost tv = t@;
                effective.push(t);
                proof {
                    assert(token_views(effective@) =~= vpre.push(tv));
                    if spec_fold(token_views(iter@)) is Some {
                        assert(vpre + (seq![tv] + spec_fold(token_views(iter@))->Some_0)
                            =~= token_views(effective@) + spec_fold(token_views(iter@))->Some_0);
                    }
                }
            },
        }
    }
}

} // verus!
