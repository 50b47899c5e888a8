//! What this crate takes on trust about characters and words, from the
//! standard library and from the crates `unicode-segmentation` and
//! `stop-words`. Nothing in this file is proved: each function states what
//! the called code is documented to do.

use vstd::prelude::*;

verus! {

/// Whether a character is alphabetic or numeric in the sense of
/// `char::is_alphanumeric`.
pub uninterp spec fn is_alphanumeric_char(c: char) -> bool;

/// Whether a character has the Unicode `White_Space` property, as
/// `char::is_whitespace` reports it.
pub uninterp spec fn is_whitespace_char(c: char) -> bool;

/// The lowercase form of a text, as `str::to_lowercase` computes it.
pub uninterp spec fn lowercase_of(text: Seq<char>) -> Seq<char>;

/// The pieces into which the word-boundary rules of Unicode cut a text, in
/// order, as `UnicodeSegmentation::split_word_bounds` yields them.
pub uninterp spec fn word_pieces(text: Seq<char>) -> Seq<Seq<char>>;

/// The stop words that the stop-word crate holds for a language code, or
/// `None` where it holds none for that code.
pub uninterp spec fn stop_words_of(code: Seq<char>) -> Option<Seq<Seq<char>>>;

/// Calls `char::is_alphanumeric`; the result is the named predicate.
#[verifier::external_body]
pub(crate) fn is_alphanumeric(c: char) -> (b: bool)
    ensures
        b == is_alphanumeric_char(c),
{
    c.is_alphanumeric()
}

/// Calls `char::is_whitespace`; the result is the named predicate.
#[verifier::external_body]
pub(crate) fn is_whitespace(c: char) -> (b: bool)
    ensures
        b == is_whitespace_char(c),
{
    c.is_whitespace()
}

/// Calls `str::to_lowercase`; the result is the named lowercase form.
#[verifier::external_body]
pub(crate) fn to_lowercase(text: &str) -> (lowered: String)
    ensures
        lowered@ == lowercase_of(text@),
{
    text.to_lowercase()
}

/// Builds a string from characters, in order, with `String::from_iter`.
#[verifier::external_body]
pub(crate) fn string_of(chars: &Vec<char>) -> (text: String)
    ensures
        text@ == chars@,
{
    String::from_iter(chars.iter())
}

/// Calls `UnicodeSegmentation::split_word_bounds` and copies each piece into
/// an owned string; the pieces are the named ones, in order.
#[verifier::external_body]
pub(crate) fn split_word_bounds(text: &str) -> (pieces: Vec<String>)
    ensures
        pieces.deep_view() == word_pieces(text@),
{
    unicode_segmentation::UnicodeSegmentation::split_word_bounds(text)
        .map(|piece| piece.to_owned())
        .collect()
}

/// Calls `stop_words::lookup` and copies each word into an owned string; the
/// result is the named list for that code.
#[verifier::external_body]
pub(crate) fn lookup_stop_words(code: &str) -> (words: Option<Vec<String>>)
    ensures
        words.deep_view() == stop_words_of(code@),
{
    stop_words::lookup(code).map(|list| list.iter().map(|word| word.to_string()).collect())
}

} // verus!
