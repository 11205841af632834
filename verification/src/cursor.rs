//! The lookahead cursor: one generic adapter over an item sequence, reused
//! by the tokenizer (over scalar values) and by the parser (over tokens).
//!
//! `peek(k)` looks `k` items ahead without consuming and never errors;
//! peeking past the end yields `None`. `next()` consumes and returns the
//! current item. The view of a cursor is the sequence of items it has not
//! yet consumed.
use vstd::prelude::*;

verus! {

pub struct Cursor<T> {
    items: Vec<T>,
}

impl<T> View for Cursor<T> {
    type V = Seq<T>;

    closed spec fn view(&self) -> Seq<T> {
        self.items@
    }
}

impl<T> Cursor<T> {
    /// Wraps a sequence of items; the cursor starts before the first one.
    pub fn new(items: Vec<T>) -> (c: Cursor<T>)
        ensures
            c@ == items@,
    {
        Cursor { items }
    }

    /// The item `offset` positions ahead, without consuming anything;
    /// `None` past the end.
    pub fn peek(&self, offset: usize) -> (r: Option<&T>)
        ensures
            match r {
                Some(item) => offset < self@.len() && *item == self@[offset as int],
                None => offset >= self@.len(),
            },
    {
        if offset < self.items.len() {
            Some(&self.items[offset])
        } else {
            None
        }
    }

    /// Consumes and returns the current item; `None` at the end.
    pub fn next(&mut self) -> (r: Option<T>)
        ensures
            old(self)@.len() == 0 ==> r is None && final(self)@ == old(self)@,
            old(self)@.len() > 0 ==> r == Some(old(self)@[0]) && final(self)@ == old(self)@.drop_first(),
    {
        if self.items.len() > 0 {
            let item = self.items.remove(0);
            proof {
                assert(self.items@ =~= old(self)@.drop_first());
            }
            Some(item)
        } else {
            None
        }
    }

    /// How many items remain.
    pub fn remaining(&self) -> (n: usize)
        ensures
            n == self@.len(),
    {
        self.items.len()
    }
}

impl Cursor<char> {
    /// Whether the scalar value `offset` positions ahead exists and equals
    /// `expected`.
    pub fn equals(&self, offset: usize, expected: char) -> (r: bool)
        ensures
            r == (offset < self@.len() && self@[offset as int] == expected),
    {
        if offset < self.items.len() {
            self.items[offset] == expected
        } else {
            false
        }
    }
}

} // verus!
