//! The abstract syntax tree: one document value, a strict ownership tree.
//! Object member order is the written order; duplicate keys are kept.
use vstd::prelude::*;

use crate::token::{DateMoment, NumberLiteral};

verus! {

/// One key-value member of an object; the key is the written text.
#[derive(Debug, PartialEq)]
pub struct KeyValuePair {
    pub key: Vec<char>,
    pub value: Box<AsonNode>,
}

/// The payload a variant value carries.
#[derive(Debug, PartialEq)]
pub enum VariantPayload {
    /// No payload: a bare `Type::Member`.
    Empty,
    /// One parenthesized value.
    Single(Box<AsonNode>),
    /// Two or more parenthesized values.
    Multiple(Vec<AsonNode>),
    /// A braced member list.
    Object(Vec<KeyValuePair>),
}

/// One node of a parsed document.
#[derive(Debug, PartialEq)]
pub enum AsonNode {
    Number(NumberLiteral),
    Boolean(bool),
    Char(char),
    String_(Vec<char>),
    Date(DateMoment),
    ByteData(Vec<u8>),
    List(Vec<AsonNode>),
    Tuple(Vec<AsonNode>),
    Object(Vec<KeyValuePair>),
    /// A named variant value: type name, member name, payload.
    Variant(Vec<char>, Vec<char>, VariantPayload),
}

/// The mathematical model of a payload.
pub enum PayloadView {
    Empty,
    Single(Box<NodeView>),
    Multiple(Seq<NodeView>),
    Object(Seq<(Seq<char>, NodeView)>),
}

/// The mathematical model of a node: texts are sequences of scalar values,
/// aggregates are sequences of models.
pub enum NodeView {
    Number(NumberLiteral),
    Boolean(bool),
    Char(char),
    String_(Seq<char>),
    Date(DateMoment),
    ByteData(Seq<u8>),
    List(Seq<NodeView>),
    Tuple(Seq<NodeView>),
    Object(Seq<(Seq<char>, NodeView)>),
    Variant(Seq<char>, Seq<char>, PayloadView),
}

/// The model of a node.
pub open spec fn node_view(n: AsonNode) -> NodeView
    decreases n,
{
    match n {
        AsonNode::Number(v) => NodeView::Number(v),
        AsonNode::Boolean(b) => NodeView::Boolean(b),
        AsonNode::Char(c) => NodeView::Char(c),
        AsonNode::String_(t) => NodeView::String_(t@),
        AsonNode::Date(d) => NodeView::Date(d),
        AsonNode::ByteData(b) => NodeView::ByteData(b@),
        AsonNode::List(items) => NodeView::List(nodes_view(items@)),
        AsonNode::Tuple(items) => NodeView::Tuple(nodes_view(items@)),
        AsonNode::Object(pairs) => NodeView::Object(pairs_view(pairs@)),
        AsonNode::Variant(ty, member, payload) => NodeView::Variant(
            ty@,
            member@,
            payload_view(payload),
        ),
    }
}

/// The model of a payload.
pub open spec fn payload_view(p: VariantPayload) -> PayloadView
    decreases p,
{
    match p {
        VariantPayload::Empty => PayloadView::Empty,
        VariantPayload::Single(n) => PayloadView::Single(Box::new(node_view(*n))),
        VariantPayload::Multiple(items) => PayloadView::Multiple(nodes_view(items@)),
        VariantPayload::Object(pairs) => PayloadView::Object(pairs_view(pairs@)),
    }
}

/// The models of a node sequence, node by node.
pub open spec fn nodes_view(items: Seq<AsonNode>) -> Seq<NodeView>
    decreases items,
{
    if items.len() == 0 {
        Seq::empty()
    } else {
        nodes_view(items.drop_last()).push(node_view(items.last()))
    }
}

/// The models of an object's members, pair by pair.
pub open spec fn pairs_view(pairs: Seq<KeyValuePair>) -> Seq<(Seq<char>, NodeView)>
    decreases pairs,
{
    if pairs.len() == 0 {
        Seq::empty()
    } else {
        pairs_view(pairs.drop_last()).push(
            (pairs.last().key@, node_view(*pairs.last().value)),
        )
    }
}

} // verus!
