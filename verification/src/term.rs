//! The term values interned by the table.
//!
//! A term is treated as an opaque, comparable unit: the core never inspects
//! it, it only stores terms and compares them for equality. Its view is the
//! character sequence of the owned text.

use vstd::prelude::*;

verus! {

/// An opaque term value (an IRI, a literal, a blank node label, ...),
/// owned by the structure that stores it. Validation of the text is the
/// business of the layer that produces terms; the core accepts any value.
#[derive(Debug, Eq, PartialEq, Hash)]
pub struct Term {
    pub value: String,
}

impl View for Term {
    type V = Seq<char>;

    open spec fn view(&self) -> Seq<char> {
        self.value@
    }
}

impl Clone for Term {
    fn clone(&self) -> (r: Term)
        ensures
            r@ == self@,
    {
        Term { value: self.value.clone() }
    }
}

impl Term {
    /// Wrap an owned string as a term.
    pub fn new(value: String) -> (t: Term)
        ensures
            t@ == value@,
    {
        Term { value }
    }

    /// Wrap borrowed text as a term, copying it.
    pub fn from_text(s: &str) -> (t: Term)
        ensures
            t@ == s@,
    {
        Term { value: s.to_owned() }
    }

    /// The text of the term.
    pub fn as_text(&self) -> (s: &str)
        ensures
            s@ == self@,
    {
        self.value.as_str()
    }

    /// Equality of terms: equality of their texts.
    pub fn eq_term(&self, other: &Term) -> (r: bool)
        ensures
            r == (self@ == other@),
    {
        self.value == other.value
    }
}

} // verus!

