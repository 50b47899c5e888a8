//! The two kinds of key the index is built on: documents and terms.

use vstd::prelude::*;

verus! {

/// A document, identified by the path it was read from. Two documents are
/// equal where their paths are.
#[derive(Debug, PartialEq, Eq, Hash)]
pub struct Document {
    pub path: String,
}

/// A normalized token. Two terms are equal where their texts are.
#[derive(Debug, PartialEq, Eq, Hash)]
pub struct Term(pub String);

impl View for Document {
    type V = Seq<char>;

    open spec fn view(&self) -> Seq<char> {
        self.path@
    }
}

impl DeepView for Document {
    type V = Seq<char>;

    open spec fn deep_view(&self) -> Seq<char> {
        self.path@
    }
}

impl View for Term {
    type V = Seq<char>;

    open spec fn view(&self) -> Seq<char> {
        self.0@
    }
}

impl DeepView for Term {
    type V = Seq<char>;

    open spec fn deep_view(&self) -> Seq<char> {
        self.0@
    }
}

impl Document {
    /// The document read from the given path.
    pub fn new(path: String) -> (document: Document)
        ensures
            document.path == path,
    {
        Document { path }
    }
}

impl Clone for Document {
    fn clone(&self) -> (copy: Document)
        ensures
            copy@ == self@,
    {
        Document { path: self.path.clone() }
    }
}

impl Clone for Term {
    fn clone(&self) -> (copy: Term)
        ensures
            copy@ == self@,
    {
        Term(self.0.clone())
    }
}

} // verus!
