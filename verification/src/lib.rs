//! A verified front end for the ASON text format: a lookahead cursor, a
//! tokenizer over Unicode scalar values, a token-sanitizing pass, and a
//! recursive-descent parser that builds one abstract syntax tree.
#![verifier::loop_isolation(false)]
use vstd::prelude::*;

pub mod ast;
pub mod charstream;
pub mod cursor;
pub mod foreign;
pub mod lexer;
pub mod numbers;
pub mod parser;
pub mod sanitizer;
pub mod token;

verus! {

/// The one error kind of the library: a human-readable message.
///
/// Every failure of the tokenizer, the sanitizer or the parser aborts the
/// current call with one of these values; no partial result is recovered.
#[derive(Debug, Clone, PartialEq)]
pub enum AsonError {
    Message(String),
    UnexpectedEndOfDocument(String),
}

} // verus!
