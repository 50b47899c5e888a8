//! The kinds of file whose content can be indexed, told apart by extension.

use crate::text_processing::chars_of;
use vstd::prelude::*;

verus! {

/// A reader of one kind of file.
pub trait FileHandler {
    /// The extensions that the handler takes.
    spec fn handles(&self, file_extension: Seq<char>) -> bool;

    /// Whether the handler takes files of the given extension.
    fn can_handle(&self, file_extension: &str) -> (handled: bool)
        ensures
            handled == self.handles(file_extension@),
    ;
}

/// Whether two texts are the same.
pub fn same_text(a: &str, b: &str) -> (same: bool)
    ensures
        same == (a@ == b@),
{
    let left = chars_of(a);
    let right = chars_of(b);
    if left.len() != right.len() {
        return false;
    }
    let mut i: usize = 0;
    while i < left.len()
        invariant
            i <= left.len(),
            left.len() == right.len(),
            left@ == a@,
            right@ == b@,
            forall|k: int| 0 <= k < i ==> left@[k] == right@[k],
        decreases left.len() - i,
    {
        if left[i] != right[i] {
            return false;
        }
        i += 1;
    }
    assert(left@ =~= right@);
    true
}

/// The handler of Markdown files, whose extension is `md`.
pub struct MarkdownHandler;

/// The handler of plain text files, whose extension is `txt`.
pub struct PlainTextHandler;

impl FileHandler for MarkdownHandler {
    open spec fn handles(&self, file_extension: Seq<char>) -> bool {
        file_extension == "md"@
    }

    fn can_handle(&self, file_extension: &str) -> (handled: bool) {
        same_text(file_extension, "md")
    }
}

impl FileHandler for PlainTextHandler {
    open spec fn handles(&self, file_extension: Seq<char>) -> bool {
        file_extension == "txt"@
    }

    fn can_handle(&self, file_extension: &str) -> (handled: bool) {
        same_text(file_extension, "txt")
    }
}

} // verus!
