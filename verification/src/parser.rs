//! The recursive-descent parser: consumes the sanitized token sequence and
//! builds exactly one document value; leftover tokens, unbalanced
//! delimiters and misplaced separators are errors.
//!
//! NewLine tokens are flexible separators inside aggregates: any number may
//! precede an element or a closing delimiter, and one is required between
//! elements. An identifier directly followed by a colon is always a key.
use vstd::prelude::*;

use crate::ast::{node_view, nodes_view, pairs_view, AsonNode, KeyValuePair, NodeView, VariantPayload};
use crate::cursor::Cursor;
use crate::token::{token_views, Token, TokenView};
use crate::AsonError;

verus! {

/// What remains after a run of NewLine separators.
pub open spec fn spec_skip_newlines(ts: Seq<TokenView>) -> Seq<TokenView>
    decreases ts.len(),
{
    if ts.len() > 0 && ts[0] is NewLine {
        spec_skip_newlines(ts.drop_first())
    } else {
        ts
    }
}

pub proof fn lemma_skip_newlines_len(ts: Seq<TokenView>)
    ensures
        spec_skip_newlines(ts).len() <= ts.len(),
        spec_skip_newlines(ts).len() > 0 ==> !(spec_skip_newlines(ts)[0] is NewLine),
    decreases ts.len(),
{
    if ts.len() > 0 && ts[0] is NewLine {
        lemma_skip_newlines_len(ts.drop_first());
    }
}

/// The position of the rightmost `::` in a name, or a negative value when
/// none occurs.
pub open spec fn spec_last_sep(name: Seq<char>) -> int
    decreases name.len(),
{
    if name.len() < 2 {
        -1
    } else if name[name.len() - 2] == ':' && name[name.len() - 1] == ':' {
        name.len() - 2
    } else {
        spec_last_sep(name.drop_last())
    }
}

/// A qualified variant name split at its rightmost `::`: the type name and
/// the member name. A name without `::` is all type name.
pub open spec fn spec_variant_split(name: Seq<char>) -> (Seq<char>, Seq<char>) {
    let i = spec_last_sep(name);
    if i < 0 {
        (name, Seq::empty())
    } else {
        (name.take(i), name.skip(i + 2))
    }
}

proof fn lemma_last_sep_bounds(name: Seq<char>)
    ensures
        spec_last_sep(name) == -1 || (0 <= spec_last_sep(name) <= name.len() - 2),
    decreases name.len(),
{
    if name.len() >= 2 && !(name[name.len() - 2] == ':' && name[name.len() - 1] == ':') {
        lemma_last_sep_bounds(name.drop_last());
    }
}

/// Finds the rightmost `::` of a name: whether one occurs, and where.
fn find_last_sep(name: &Vec<char>) -> (r: (bool, usize))
    ensures
        r.0 ==> r.1 == spec_last_sep(name@) && r.1 + 2 <= name@.len(),
        !r.0 ==> spec_last_sep(name@) == -1,
{
    proof {
        lemma_last_sep_bounds(name@);
    }
    let mut j: usize = name.len();
    proof {
        assert(name@.take(name@.len() as int) =~= name@);
    }
    loop
        invariant
            j <= name@.len(),
            spec_last_sep(name@) == spec_last_sep(name@.take(j as int)),
        decreases j,
    {
        if j < 2 {
            return (false, 0);
        }
        if name[j - 2] == ':' && name[j - 1] == ':' {
            return (true, j - 2);
        }
        proof {
            assert(name@.take(j as int).drop_last() =~= name@.take(j as int - 1));
        }
        j = j - 1;
    }
}

/// Splits a qualified variant name at its rightmost `::`.
fn variant_split(name: &Vec<char>) -> (r: (Vec<char>, Vec<char>))
    ensures
        (r.0@, r.1@) == spec_variant_split(name@),
{
    let total: usize = name.len();
    let (found, at) = find_last_sep(name);
    if !found {
        let mut ty: Vec<char> = Vec::new();
        let mut i: usize = 0;
        while i < name.len()
            invariant
                i <= name@.len(),
                ty@ == name@.take(i as int),
            decreases name@.len() - i,
        {
            proof {
                assert(name@.take(i as int).push(name@[i as int]) =~= name@.take(i as int + 1));
            }
            ty.push(name[i]);
            i = i + 1;
        }
        proof {
            assert(name@.take(name@.len() as int) =~= name@);
        }
        (ty, Vec::new())
    } else {
        let mut ty: Vec<char> = Vec::new();
        let mut i: usize = 0;
        while i < at
            invariant
                i <= at,
                at + 2 <= name@.len(),
                ty@ == name@.take(i as int),
            decreases at - i,
        {
            proof {
                assert(name@.take(i as int).push(name@[i as int]) =~= name@.take(i as int + 1));
            }
            ty.push(name[i]);
            i = i + 1;
        }
        let mut member: Vec<char> = Vec::new();
        let mut k: usize = at + 2;
        while k < name.len()
            invariant
                at + 2 <= k <= name@.len(),
                member@ == name@.subrange(at as int + 2, k as int),
            decreases name@.len() - k,
        {
            proof {
                assert(name@.subrange(at as int + 2, k as int).push(name@[k as int])
                    =~= name@.subrange(at as int + 2, k as int + 1));
            }
            member.push(name[k]);
            k = k + 1;
        }
        proof {
            assert(member@ =~= name@.skip(at as int + 2));
        }
        (ty, member)
    }
}

/// One value and what follows it: a literal token makes a leaf; brackets,
/// parentheses and braces open a list, a tuple and an object; a variant
/// token may take a parenthesized or braced payload. Anything else is an
/// error.
pub open spec fn spec_parse_node(ts: Seq<TokenView>) -> Option<(NodeView, Seq<TokenView>)>
    decreases ts.len(), 1int,
    via spec_parse_node_dec
{
    if ts.len() == 0 {
        None
    } else {
        match ts[0] {
            TokenView::Number(n) => Some((NodeView::Number(n), ts.drop_first())),
            TokenView::Boolean(b) => Some((NodeView::Boolean(b), ts.drop_first())),
            TokenView::Char(c) => Some((NodeView::Char(c), ts.drop_first())),
            TokenView::String_(t) => Some((NodeView::String_(t), ts.drop_first())),
            TokenView::Date(d) => Some((NodeView::Date(d), ts.drop_first())),
            TokenView::ByteData(b) => Some((NodeView::ByteData(b), ts.drop_first())),
            TokenView::Variant(name) => {
                let ty = spec_variant_split(name).0;
                let member = spec_variant_split(name).1;
                let rest = ts.drop_first();
                if rest.len() > 0 && rest[0] is LeftParen {
                    match spec_parse_items(rest.drop_first(), true) {
                        None => None,
                        Some((ns, r)) => if ns.len() == 0 {
                            None
                        } else if ns.len() == 1 {
                            Some(
                                (
                                    NodeView::Variant(
                                        ty,
                                        member,
                                        crate::ast::PayloadView::Single(Box::new(ns[0])),
                                    ),
                                    r,
                                ),
                            )
                        } else {
                            Some(
                                (
                                    NodeView::Variant(
                                        ty,
                                        member,
                                        crate::ast::PayloadView::Multiple(ns),
                                    ),
                                    r,
                                ),
                            )
                        },
                    }
                } else if rest.len() > 0 && rest[0] is LeftBrace {
                    match spec_parse_pairs(rest.drop_first()) {
                        None => None,
                        Some((ps, r)) => Some(
                            (
                                NodeView::Variant(ty, member, crate::ast::PayloadView::Object(ps)),
                                r,
                            ),
                        ),
                    }
                } else {
                    Some((NodeView::Variant(ty, member, crate::ast::PayloadView::Empty), rest))
                }
            },
            TokenView::LeftBracket => match spec_parse_items(ts.drop_first(), false) {
                None => None,
                Some((ns, r)) => Some((NodeView::List(ns), r)),
            },
            TokenView::LeftParen => match spec_parse_items(ts.drop_first(), true) {
                None => None,
                Some((ns, r)) => Some((NodeView::Tuple(ns), r)),
            },
            TokenView::LeftBrace => match spec_parse_pairs(ts.drop_first()) {
                None => None,
                Some((ps, r)) => Some((NodeView::Object(ps), r)),
            },
            _ => None,
        }
    }
}

#[via_fn]
proof fn spec_parse_node_dec(ts: Seq<TokenView>) {
}

/// The elements of a list (closing bracket) or of a tuple or parenthesized
/// payload (`paren` true, closing parenthesis), and what follows the
/// closing delimiter: separators may precede any element and the closer; a
/// separator is required between elements; the closer is required.
pub open spec fn spec_parse_items(ts: Seq<TokenView>, paren: bool) -> Option<
    (Seq<NodeView>, Seq<TokenView>),
>
    decreases ts.len(), 2int,
    via spec_parse_items_dec
{
    let t1 = spec_skip_newlines(ts);
    if t1.len() == 0 {
        None
    } else if (paren && t1[0] is RightParen) || (!paren && t1[0] is RightBracket) {
        Some((Seq::empty(), t1.drop_first()))
    } else {
        match spec_parse_node(t1) {
            None => None,
            Some((n, r)) => {
                if r.len() >= ts.len() {
                    // a value never outgrows its tokens; this guard only
                    // makes the recursion well-founded
                    None
                } else if r.len() == 0 {
                    None
                } else if (paren && r[0] is RightParen) || (!paren && r[0] is RightBracket) {
                    Some((seq![n], r.drop_first()))
                } else if r[0] is NewLine {
                    match spec_parse_items(r.drop_first(), paren) {
                        None => None,
                        Some((ns, rr)) => Some((seq![n] + ns, rr)),
                    }
                } else {
                    None
                }
            },
        }
    }
}

#[via_fn]
proof fn spec_parse_items_dec(ts: Seq<TokenView>, paren: bool) {
    lemma_skip_newlines_len(ts);
}

/// The members of an object (or of a braced variant payload) and what
/// follows the closing brace: each member is an identifier key, a colon and
/// a value; separators as between elements.
pub open spec fn spec_parse_pairs(ts: Seq<TokenView>) -> Option<
    (Seq<(Seq<char>, NodeView)>, Seq<TokenView>),
>
    decreases ts.len(), 2int,
    via spec_parse_pairs_dec
{
    let t1 = spec_skip_newlines(ts);
    if t1.len() == 0 {
        None
    } else if t1[0] is RightBrace {
        Some((Seq::empty(), t1.drop_first()))
    } else {
        match t1[0] {
            TokenView::Identifier(key) => {
                if t1.len() < 2 || !(t1[1] is Colon) {
                    None
                } else {
                    match spec_parse_node(t1.skip(2)) {
                        None => None,
                        Some((v, r)) => {
                            if r.len() >= ts.len() {
                                // see the guard in the element rule
                                None
                            } else if r.len() == 0 {
                                None
                            } else if r[0] is RightBrace {
                                Some((seq![(key, v)], r.drop_first()))
                            } else if r[0] is NewLine {
                                match spec_parse_pairs(r.drop_first()) {
                                    None => None,
                                    Some((ps, rr)) => Some((seq![(key, v)] + ps, rr)),
                                }
                            } else {
                                None
                            }
                        },
                    }
                }
            },
            _ => None,
        }
    }
}

#[via_fn]
proof fn spec_parse_pairs_dec(ts: Seq<TokenView>) {
    lemma_skip_newlines_len(ts);
}

/// A parsed value consumes at least one token, and an element or member
/// list consumes at least its closing delimiter.
pub proof fn lemma_parse_node_len(ts: Seq<TokenView>)
    ensures
        match spec_parse_node(ts) {
            Some((_, r)) => r.len() < ts.len(),
            None => true,
        },
    decreases ts.len(), 1int,
{
    if ts.len() > 0 {
        match ts[0] {
            TokenView::Variant(_) => {
                let rest = ts.drop_first();
                if rest.len() > 0 && rest[0] is LeftParen {
                    lemma_parse_items_len(rest.drop_first(), true);
                } else if rest.len() > 0 && rest[0] is LeftBrace {
                    lemma_parse_pairs_len(rest.drop_first());
                }
            },
            TokenView::LeftBracket => {
                lemma_parse_items_len(ts.drop_first(), false);
            },
            TokenView::LeftParen => {
                lemma_parse_items_len(ts.drop_first(), true);
            },
            TokenView::LeftBrace => {
                lemma_parse_pairs_len(ts.drop_first());
            },
            _ => {},
        }
    }
}

pub proof fn lemma_parse_items_len(ts: Seq<TokenView>, paren: bool)
    ensures
        match spec_parse_items(ts, paren) {
            Some((_, r)) => r.len() < ts.len(),
            None => true,
        },
    decreases ts.len(), 2int,
{
    lemma_skip_newlines_len(ts);
    let t1 = spec_skip_newlines(ts);
    if t1.len() > 0 {
        if (paren && t1[0] is RightParen) || (!paren && t1[0] is RightBracket) {
        } else {
            lemma_parse_node_len(t1);
            match spec_parse_node(t1) {
                None => {},
                Some((n, r)) => {
                    if r.len() < ts.len() && r.len() > 0 && r[0] is NewLine && !((paren
                        && r[0] is RightParen) || (!paren && r[0] is RightBracket)) {
                        lemma_parse_items_len(r.drop_first(), paren);
                    }
                },
            }
        }
    }
}

pub proof fn lemma_parse_pairs_len(ts: Seq<TokenView>)
    ensures
        match spec_parse_pairs(ts) {
            Some((_, r)) => r.len() < ts.len(),
            None => true,
        },
    decreases ts.len(), 2int,
{
    lemma_skip_newlines_len(ts);
    let t1 = spec_skip_newlines(ts);
    if t1.len() > 0 && !(t1[0] is RightBrace) {
        match t1[0] {
            TokenView::Identifier(_) => {
                if t1.len() >= 2 && t1[1] is Colon {
                    lemma_parse_node_len(t1.skip(2));
                    match spec_parse_node(t1.skip(2)) {
                        None => {},
                        Some((v, r)) => {
                            if r.len() < ts.len() && r.len() > 0 && r[0] is NewLine && !(
                            r[0] is RightBrace) {
                                lemma_parse_pairs_len(r.drop_first());
                            }
                        },
                    }
                }
            },
            _ => {},
        }
    }
}

/// One whole document: exactly one value production; an empty document and
/// leftover tokens are errors.
pub open spec fn spec_parse(ts: Seq<TokenView>) -> Option<NodeView> {
    match spec_parse_node(ts) {
        None => None,
        Some((n, r)) => if r.len() == 0 {
            Some(n)
        } else {
            None
        },
    }
}

/// The model sequence of nodes is the node models, index by index.
pub proof fn lemma_nodes_view(items: Seq<AsonNode>)
    ensures
        nodes_view(items).len() == items.len(),
        forall|i: int| 0 <= i < items.len() ==> #[trigger] nodes_view(items)[i] == node_view(
            items[i],
        ),
    decreases items.len(),
{
    if items.len() > 0 {
        lemma_nodes_view(items.drop_last());
        assert(forall|i: int|
            0 <= i < items.len() - 1 ==> #[trigger] items.drop_last()[i] == items[i]);
    }
}

/// The model sequence of members is the member models, index by index.
pub proof fn lemma_pairs_view(pairs: Seq<KeyValuePair>)
    ensures
        pairs_view(pairs).len() == pairs.len(),
        forall|i: int| 0 <= i < pairs.len() ==> #[trigger] pairs_view(pairs)[i] == (
            pairs[i].key@,
            node_view(*pairs[i].value),
        ),
    decreases pairs.len(),
{
    if pairs.len() > 0 {
        lemma_pairs_view(pairs.drop_last());
        assert(forall|i: int|
            0 <= i < pairs.len() - 1 ==> #[trigger] pairs.drop_last()[i] == pairs[i]);
    }
}

fn err_node(text: &str) -> (r: Result<AsonNode, AsonError>)
    ensures
        r is Err,
{
    Err(AsonError::Message(text.to_owned()))
}

/// Whether the cursor stands at a NewLine separator.
fn at_newline(iter: &Cursor<Token>) -> (b: bool)
    ensures
        b == (iter@.len() > 0 && token_views(iter@)[0] is NewLine),
{
    match iter.peek(0) {
        Some(t) => matches!(t, Token::NewLine),
        None => false,
    }
}

/// Reads one value, as `spec_parse_node` prescribes.
pub fn parse_node(iter: &mut Cursor<Token>) -> (r: Result<AsonNode, AsonError>)
    ensures
        match r {
            Ok(n) => match spec_parse_node(token_views(old(iter)@)) {
                Some((nv, rest)) => node_view(n) == nv && token_views(final(iter)@) == rest,
                None => false,
            },
            Err(_) => spec_parse_node(token_views(old(iter)@)) is None,
        },
    decreases old(iter)@.len(), 1int,
{
    let ghost ts = token_views(old(iter)@);
    proof {
        if old(iter)@.len() > 0 {
            assert(ts[0] == old(iter)@[0]@);
            assert(token_views(old(iter)@.drop_first()) =~= ts.drop_first());
        }
    }
    let t: Token = match iter.next() {
        None => {
            return err_node("Unexpected end of document.");
        },
        Some(t) => t,
    };
    match t {
        Token::Number(n) => Ok(AsonNode::Number(n)),
        Token::Boolean(b) => Ok(AsonNode::Boolean(b)),
        Token::Char(c) => Ok(AsonNode::Char(c)),
        Token::String_(tx) => Ok(AsonNode::String_(tx)),
        Token::Date(d) => Ok(AsonNode::Date(d)),
        Token::ByteData(b) => Ok(AsonNode::ByteData(b)),
        Token::Variant(name) => {
            let (ty, member) = variant_split(&name);
            let ghost rest = ts.drop_first();
            proof {
                if iter@.len() > 0 {
                    assert(rest[0] == iter@[0]@);
                    assert(token_views(iter@.drop_first()) =~= rest.drop_first());
                }
            }
            let open_paren: bool = match iter.peek(0) {
                Some(p) => matches!(p, Token::LeftParen),
                None => false,
            };
            let open_brace: bool = match iter.peek(0) {
                Some(p) => matches!(p, Token::LeftBrace),
                None => false,
            };
            if open_paren {
                iter.next();
                let mut items: Vec<AsonNode> = match parse_items(iter, true) {
                    Err(e) => {
                        return Err(e);
                    },
                    Ok(v) => v,
                };
                proof {
                    lemma_nodes_view(items@);
                }
                if items.len() == 0 {
                    return err_node("A variant payload needs at least one value.");
                } else if items.len() == 1 {
                    let single = items.remove(0);
                    Ok(
                        AsonNode::Variant(ty, member, VariantPayload::Single(Box::new(single))),
                    )
                } else {
                    Ok(AsonNode::Variant(ty, member, VariantPayload::Multiple(items)))
                }
            } else if open_brace {
                iter.next();
                let pairs: Vec<KeyValuePair> = match parse_pairs(iter) {
                    Err(e) => {
                        return Err(e);
                    },
                    Ok(v) => v,
                };
                Ok(AsonNode::Variant(ty, member, VariantPayload::Object(pairs)))
            } else {
                Ok(AsonNode::Variant(ty, member, VariantPayload::Empty))
            }
        },
        Token::LeftBracket => {
            let items: Vec<AsonNode> = match parse_items(iter, false) {
                Err(e) => {
                    return Err(e);
                },
                Ok(v) => v,
            };
            Ok(AsonNode::List(items))
        },
        Token::LeftParen => {
            let items: Vec<AsonNode> = match parse_items(iter, true) {
                Err(e) => {
                    return Err(e);
                },
                Ok(v) => v,
            };
            Ok(AsonNode::Tuple(items))
        },
        Token::LeftBrace => {
            let pairs: Vec<KeyValuePair> = match parse_pairs(iter) {
                Err(e) => {
                    return Err(e);
                },
                Ok(v) => v,
            };
            Ok(AsonNode::Object(pairs))
        },
        _ => err_node("Unexpected token."),
    }
}

fn err_items(text: &str) -> (r: Result<Vec<AsonNode>, AsonError>)
    ensures
        r is Err,
{
    Err(AsonError::Message(text.to_owned()))
}

/// Reads the elements of a list, tuple or parenthesized payload up to and
/// including the closing delimiter, as `spec_parse_items` prescribes.
pub fn parse_items(iter: &mut Cursor<Token>, paren: bool) -> (r: Result<Vec<AsonNode>, AsonError>)
    ensures
        match r {
            Ok(items) => spec_parse_items(token_views(old(iter)@), paren) == Some(
                (nodes_view(items@), token_views(final(iter)@)),
            ),
            Err(_) => spec_parse_items(token_views(old(iter)@), paren) is None,
        },
    decreases old(iter)@.len(), 2int,
{
    let ghost ts = token_views(old(iter)@);
    while at_newline(iter)
        invariant
            iter@.len() <= old(iter)@.len(),
            spec_skip_newlines(ts) == spec_skip_newlines(token_views(iter@)),
        decreases iter@.len(),
    {
        proof {
            assert(token_views(iter@)[0] == iter@[0]@);
            assert(token_views(iter@.drop_first()) =~= token_views(iter@).drop_first());
        }
        iter.next();
    }
    proof {
        assert(spec_skip_newlines(token_views(iter@)) =~= token_views(iter@));
    }
    let ghost t1 = token_views(iter@);
    proof {
        if iter@.len() > 0 {
            assert(t1[0] == iter@[0]@);
            assert(token_views(iter@.drop_first()) =~= t1.drop_first());
        }
    }
    let at_close: bool = match iter.peek(0) {
        Some(t) => {
            if paren {
                matches!(t, Token::RightParen)
            } else {
                matches!(t, Token::RightBracket)
            }
        },
        None => {
            return err_items("Unexpected end of document inside an aggregate.");
        },
    };
    if at_close {
        iter.next();
        let items: Vec<AsonNode> = Vec::new();
        proof {
            lemma_nodes_view(items@);
            assert(nodes_view(items@) =~= Seq::<NodeView>::empty());
        }
        return Ok(items);
    }
    proof {
        lemma_parse_node_len(t1);
        lemma_skip_newlines_len(ts);
    }
    let n: AsonNode = match parse_node(iter) {
        Err(e) => {
            return Err(e);
        },
        Ok(n) => n,
    };
    let ghost rafter = token_views(iter@);
    proof {
        if iter@.len() > 0 {
            assert(rafter[0] == iter@[0]@);
            assert(token_views(iter@.drop_first()) =~= rafter.drop_first());
        }
    }
    let after_close: bool = match iter.peek(0) {
        Some(t) => {
            if paren {
                matches!(t, Token::RightParen)
            } else {
                matches!(t, Token::RightBracket)
            }
        },
        None => {
            return err_items("Unexpected end of document inside an aggregate.");
        },
    };
    if after_close {
        iter.next();
        let mut items: Vec<AsonNode> = Vec::new();
        items.push(n);
        proof {
            lemma_nodes_view(items@);
            assert(nodes_view(items@) =~= seq![node_view(n)]);
        }
        return Ok(items);
    }
    let at_sep: bool = match iter.peek(0) {
        Some(t) => matches!(t, Token::NewLine),
        None => false,
    };
    if !at_sep {
        return err_items("A separator is required between the elements of an aggregate.");
    }
    iter.next();
    let mut items: Vec<AsonNode> = match parse_items(iter, paren) {
        Err(e) => {
            return Err(e);
        },
        Ok(v) => v,
    };
    let ghost tail = items@;
    items.insert(0, n);
    proof {
        lemma_nodes_view(tail);
        lemma_nodes_view(items@);
        assert(nodes_view(items@) =~= seq![node_view(n)] + nodes_view(tail));
    }
    Ok(items)
}

fn err_pairs(text: &str) -> (r: Result<Vec<KeyValuePair>, AsonError>)
    ensures
        r is Err,
{
    Err(AsonError::Message(text.to_owned()))
}

/// Reads the members of an object up to and including the closing brace,
/// as `spec_parse_pairs` prescribes.
pub fn parse_pairs(iter: &mut Cursor<Token>) -> (r: Result<Vec<KeyValuePair>, AsonError>)
    ensures
        match r {
            Ok(pairs) => spec_parse_pairs(token_views(old(iter)@)) == Some(
                (pairs_view(pairs@), token_views(final(iter)@)),
            ),
            Err(_) => spec_parse_pairs(token_views(old(iter)@)) is None,
        },
    decreases old(iter)@.len(), 2int,
{
    let ghost ts = token_views(old(iter)@);
    while at_newline(iter)
        invariant
            iter@.len() <= old(iter)@.len(),
            spec_skip_newlines(ts) == spec_skip_newlines(token_views(iter@)),
        decreases iter@.len(),
    {
        proof {
            assert(token_views(iter@)[0] == iter@[0]@);
            assert(token_views(iter@.drop_first()) =~= token_views(iter@).drop_first());
        }
        iter.next();
    }
    proof {
        assert(spec_skip_newlines(token_views(iter@)) =~= token_views(iter@));
    }
    let ghost t1 = token_views(iter@);
    proof {
        if iter@.len() > 0 {
            assert(t1[0] == iter@[0]@);
            assert(token_views(iter@.drop_first()) =~= t1.drop_first());
        }
    }
    let key: Vec<char> = match iter.next() {
        None => {
            return err_pairs("Unexpected end of document inside an object.");
        },
        Some(t) => match t {
            Token::RightBrace => {
                let pairs: Vec<KeyValuePair> = Vec::new();
                proof {
                    lemma_pairs_view(pairs@);
                    assert(pairs_view(pairs@) =~= Seq::<(Seq<char>, NodeView)>::empty());
                }
                return Ok(pairs);
            },
            Token::Identifier(k) => k,
            _ => {
                return err_pairs("An object member needs an identifier key.");
            },
        },
    };
    proof {
        if iter@.len() > 0 {
            assert(t1.drop_first()[0] == iter@[0]@);
            assert(t1[1] == iter@[0]@);
            assert(token_views(iter@.drop_first()) =~= t1.skip(2));
        }
    }
    match iter.next() {
        Some(t) => {
            if !matches!(t, Token::Colon) {
                return err_pairs("An object key must be followed by a colon.");
            }
        },
        None => {
            return err_pairs("An object key must be followed by a colon.");
        },
    }
    proof {
        lemma_parse_node_len(t1.skip(2));
        lemma_skip_newlines_len(ts);
    }
    let v: AsonNode = match parse_node(iter) {
        Err(e) => {
            return Err(e);
        },
        Ok(n) => n,
    };
    let ghost rafter = token_views(iter@);
    proof {
        if iter@.len() > 0 {
            assert(rafter[0] == iter@[0]@);
            assert(token_views(iter@.drop_first()) =~= rafter.drop_first());
        }
    }
    let pair = KeyValuePair { key, value: Box::new(v) };
    let after_close: bool = match iter.peek(0) {
        Some(t) => matches!(t, Token::RightBrace),
        None => {
            return err_pairs("Unexpected end of document inside an object.");
        },
    };
    if after_close {
        iter.next();
        let mut pairs: Vec<KeyValuePair> = Vec::new();
        pairs.push(pair);
        proof {
            lemma_pairs_view(pairs@);
            assert(pairs_view(pairs@) =~= seq![(pairs@[0].key@, node_view(*pairs@[0].value))]);
        }
        return Ok(pairs);
    }
    let at_sep: bool = match iter.peek(0) {
        Some(t) => matches!(t, Token::NewLine),
        None => false,
    };
    if !at_sep {
        return err_pairs("A separator is required between the members of an object.");
    }
    iter.next();
    let mut pairs: Vec<KeyValuePair> = match parse_pairs(iter) {
        Err(e) => {
            return Err(e);
        },
        Ok(v) => v,
    };
    let ghost tail = pairs@;
    let ghost pv = (pair.key@, node_view(*pair.value));
    pairs.insert(0, pair);
    proof {
        lemma_pairs_view(tail);
        lemma_pairs_view(pairs@);
        assert(pairs_view(pairs@) =~= seq![pv] + pairs_view(tail));
    }
    Ok(pairs)
}

/// Parses one whole document from the effective tokens: exactly one value,
/// as `spec_parse` prescribes; leftover tokens are an error.
pub fn parse(iter: &mut Cursor<Token>) -> (r: Result<AsonNode, AsonError>)
    ensures
        match r {
            Ok(n) => spec_parse(token_views(old(iter)@)) == Some(node_view(n)),
            Err(_) => spec_parse(token_views(old(iter)@)) is None,
        },
{
    let n: AsonNode = match parse_node(iter) {
        Err(e) => {
            return Err(e);
        },
        Ok(n) => n,
    };
    if iter.remaining() > 0 {
        err_node("The document has tokens after its one value.")
    } else {
        Ok(n)
    }
}

/// The whole front end on a scalar-value sequence: tokenize, sanitize,
/// parse; an error anywhere is an error of the whole.
pub open spec fn spec_pipeline(s: Seq<char>) -> Option<NodeView> {
    match crate::lexer::spec_lex(s) {
        None => None,
        Some(ts) => match crate::sanitizer::spec_sanitize(ts) {
            None => None,
            Some(es) => spec_parse(es),
        },
    }
}

/// Reads one whole document from its scalar values: the tokenizer, the
/// sanitizer and the parser in order, as `spec_pipeline` prescribes.
pub fn parse_from_chars(chars: Vec<char>) -> (r: Result<AsonNode, AsonError>)
    ensures
        match r {
            Ok(n) => spec_pipeline(chars@) == Some(node_view(n)),
            Err(_) => spec_pipeline(chars@) is None,
        },
{
    let mut char_cursor: Cursor<char> = Cursor::new(chars);
    let tokens: Vec<Token> = match crate::lexer::lex(&mut char_cursor) {
        Err(e) => {
            return Err(e);
        },
        Ok(tokens) => tokens,
    };
    let effective: Vec<Token> = match crate::sanitizer::sanitize(tokens) {
        Err(e) => {
            return Err(e);
        },
        Ok(effective) => effective,
    };
    let mut token_cursor: Cursor<Token> = Cursor::new(effective);
    parse(&mut token_cursor)
}

} // verus!
