//! Text normalization: from raw text to the ordered tokens that are indexed
//! and queried.

use crate::seq_facts::{lemma_filter_keeps_all, lemma_filter_next, lemma_filter_twice};
use crate::unicode::{
    is_alphanumeric, is_alphanumeric_char, is_whitespace, is_whitespace_char,
    lookup_stop_words, lowercase_of, split_word_bounds, stop_words_of, string_of, to_lowercase,
    word_pieces,
};
use vstd::prelude::*;

verus! {

/// A character survives cleaning when it is alphanumeric or whitespace.
pub open spec fn is_kept_char(c: char) -> bool {
    is_alphanumeric_char(c) || is_whitespace_char(c)
}

/// A text without its leading whitespace.
pub open spec fn trim_start(text: Seq<char>) -> Seq<char>
    decreases text.len(),
{
    if text.len() > 0 && is_whitespace_char(text[0]) {
        trim_start(text.drop_first())
    } else {
        text
    }
}

/// A text without its trailing whitespace.
pub open spec fn trim_end(text: Seq<char>) -> Seq<char>
    decreases text.len(),
{
    if text.len() > 0 && is_whitespace_char(text.last()) {
        trim_end(text.drop_last())
    } else {
        text
    }
}

/// The kept characters of a text, in order.
pub open spec fn kept_chars(text: Seq<char>) -> Seq<char> {
    text.filter(|c: char| is_kept_char(c))
}

/// The kept characters of a text, in order, without whitespace at either end.
pub open spec fn cleaned(text: Seq<char>) -> Seq<char> {
    trim_end(trim_start(kept_chars(text)))
}

/// A piece is blank when every character of it is whitespace.
pub open spec fn is_blank(piece: Seq<char>) -> bool {
    forall|i: int| 0 <= i < piece.len() ==> is_whitespace_char(#[trigger] piece[i])
}

/// The word-boundary pieces of a text that are not blank, in order.
pub open spec fn tokens_of(text: Seq<char>) -> Seq<Seq<char>> {
    word_pieces(text).filter(|piece: Seq<char>| !is_blank(piece))
}

/// The tokens that are not among the given stop words, in order.
pub open spec fn without_stop_words(tokens: Seq<Seq<char>>, stops: Seq<Seq<char>>) -> Seq<
    Seq<char>,
> {
    tokens.filter(|token: Seq<char>| !stops.contains(token))
}

/// The English stop words; empty where the stop-word data holds none.
pub open spec fn english_stop_words() -> Seq<Seq<char>> {
    match stop_words_of("en"@) {
        Some(words) => words,
        None => Seq::empty(),
    }
}

/// The tokens joined by single spaces.
pub open spec fn joined(tokens: Seq<Seq<char>>) -> Seq<char>
    decreases tokens.len(),
{
    if tokens.len() == 0 {
        Seq::empty()
    } else if tokens.len() == 1 {
        tokens[0]
    } else {
        joined(tokens.drop_last()) + seq![' '] + tokens.last()
    }
}

/// The normalized tokens of a text: lowercase, clean, segment at word
/// boundaries, drop blank pieces, drop English stop words.
pub open spec fn normalized(text: Seq<char>) -> Seq<Seq<char>> {
    without_stop_words(tokens_of(cleaned(lowercase_of(text))), english_stop_words())
}

proof fn lemma_trim_start_suffix(text: Seq<char>, i: int)
    requires
        0 <= i <= text.len(),
        forall|k: int| 0 <= k < i ==> is_whitespace_char(#[trigger] text[k]),
    ensures
        trim_start(text) == trim_start(text.subrange(i, text.len() as int)),
    decreases i,
{
    if i > 0 {
        let rest = text.drop_first();
        assert(forall|k: int| 0 <= k < i - 1 ==> is_whitespace_char(#[trigger] rest[k])) by {
            assert forall|k: int| 0 <= k < i - 1 implies is_whitespace_char(
                #[trigger] rest[k],
            ) by {
                assert(rest[k] == text[k + 1]);
            }
        }
        lemma_trim_start_suffix(rest, i - 1);
        assert(rest.subrange(i - 1, rest.len() as int) =~= text.subrange(i, text.len() as int));
        assert(is_whitespace_char(text[0]));
    } else {
        assert(text.subrange(0, text.len() as int) =~= text);
    }
}

proof fn lemma_trim_end_prefix(text: Seq<char>, j: int)
    requires
        0 <= j <= text.len(),
        forall|k: int| j <= k < text.len() ==> is_whitespace_char(#[trigger] text[k]),
    ensures
        trim_end(text) == trim_end(text.subrange(0, j)),
    decreases text.len() - j,
{
    if j < text.len() {
        let rest = text.drop_last();
        assert(forall|k: int| j <= k < rest.len() ==> is_whitespace_char(#[trigger] rest[k])) by {
            assert forall|k: int| j <= k < rest.len() implies is_whitespace_char(
                #[trigger] rest[k],
            ) by {
                assert(rest[k] == text[k]);
            }
        }
        lemma_trim_end_prefix(rest, j);
        assert(rest.subrange(0, j) =~= text.subrange(0, j));
        assert(is_whitespace_char(text.last()));
    } else {
        assert(text.subrange(0, j) =~= text);
    }
}

/// The characters of a text, in order.
pub fn chars_of(text: &str) -> (chars: Vec<char>)
    ensures
        chars@ == text@,
{
    broadcast use vstd::string::group_string_axioms;

    let mut chars: Vec<char> = Vec::new();
    for c in iter: text.chars()
        invariant
            iter.seq() == text@,
            chars@ == iter.seq().subrange(0, iter.index() as int),
    {
        chars.push(c);
        assert(chars@ =~= iter.seq().subrange(0, iter.index() + 1));
    }
    assert(chars@ =~= text@);
    chars
}

/// Keeps the alphanumeric and whitespace characters of a text, then removes
/// the whitespace at both ends.
pub fn remove_unwanted_characters(text: &str) -> (result: String)
    ensures
        result@ == cleaned(text@),
{
    let chars = chars_of(text);
    let mut kept: Vec<char> = Vec::new();
    let mut i: usize = 0;
    while i < chars.len()
        invariant
            i <= chars.len(),
            kept@ == kept_chars(chars@.subrange(0, i as int)),
        decreases chars.len() - i,
    {
        let c = chars[i];
        proof {
            lemma_filter_next(chars@, |c: char| is_kept_char(c), i as int);
        }
        if is_alphanumeric(c) || is_whitespace(c) {
            kept.push(c);
        }
        i += 1;
    }
    assert(chars@.subrange(0, i as int) =~= chars@);
    let mut start: usize = 0;
    while start < kept.len() && is_whitespace(kept[start])
        invariant
            start <= kept.len(),
            forall|k: int| 0 <= k < start ==> is_whitespace_char(#[trigger] kept@[k]),
        decreases kept.len() - start,
    {
        start += 1;
    }
    let mut end: usize = kept.len();
    while end > start && is_whitespace(kept[end - 1])
        invariant
            start <= end <= kept.len(),
            forall|k: int| end <= k < kept.len() ==> is_whitespace_char(#[trigger] kept@[k]),
        decreases end,
    {
        end -= 1;
    }
    let mut trimmed: Vec<char> = Vec::new();
    let mut j: usize = start;
    while j < end
        invariant
            start <= j <= end <= kept.len(),
            trimmed@ == kept@.subrange(start as int, j as int),
        decreases end - j,
    {
        trimmed.push(kept[j]);
        proof {
            assert(kept@.subrange(start as int, j + 1) =~= kept@.subrange(
                start as int,
                j as int,
            ).push(kept@[j as int]));
        }
        j += 1;
    }
    proof {
        let tail = kept@.subrange(start as int, kept@.len() as int);
        lemma_trim_start_suffix(kept@, start as int);
        assert(trim_start(tail) == tail) by {
            if tail.len() > 0 {
                assert(tail[0] == kept@[start as int]);
            }
        }
        assert(forall|k: int| end - start <= k < tail.len() ==> is_whitespace_char(
            #[trigger] tail[k],
        )) by {
            assert forall|k: int| end - start <= k < tail.len() implies is_whitespace_char(
                #[trigger] tail[k],
            ) by {
                assert(tail[k] == kept@[k + start]);
            }
        }
        lemma_trim_end_prefix(tail, end - start);
        assert(tail.subrange(0, end - start) =~= trimmed@);
        assert(trim_end(trimmed@) == trimmed@) by {
            if trimmed@.len() > 0 {
                assert(trimmed@.last() == kept@[end - 1]);
            }
        }
    }
    string_of(&trimmed)
}

/// Whether every character of a piece is whitespace.
pub fn is_blank_piece(piece: &str) -> (blank: bool)
    ensures
        blank == is_blank(piece@),
{
    let chars = chars_of(piece);
    let mut i: usize = 0;
    while i < chars.len()
        invariant
            i <= chars.len(),
            chars@ == piece@,
            forall|k: int| 0 <= k < i ==> is_whitespace_char(#[trigger] chars@[k]),
        decreases chars.len() - i,
    {
        if !is_whitespace(chars[i]) {
            return false;
        }
        i += 1;
    }
    true
}

/// Cuts a text at word boundaries and keeps the pieces that are not blank.
pub fn tokenize(cleaned_text: &str) -> (tokens: Vec<String>)
    ensures
        tokens.deep_view() == tokens_of(cleaned_text@),
{
    let pieces = split_word_bounds(cleaned_text);
    let mut tokens: Vec<String> = Vec::new();
    let mut i: usize = 0;
    while i < pieces.len()
        invariant
            i <= pieces.len(),
            tokens.deep_view() == pieces.deep_view().subrange(0, i as int).filter(
                |piece: Seq<char>| !is_blank(piece),
            ),
        decreases pieces.len() - i,
    {
        proof {
            lemma_filter_next(
                pieces.deep_view(),
                |piece: Seq<char>| !is_blank(piece),
                i as int,
            );
        }
        if !is_blank_piece(pieces[i].as_str()) {
            let ghost before = tokens.deep_view();
            tokens.push(pieces[i].clone());
            assert(tokens.deep_view() =~= before.push(pieces[i as int]@));
        }
        i += 1;
    }
    assert(pieces.deep_view().subrange(0, i as int) =~= pieces.deep_view());
    tokens
}

/// Whether a list of strings holds the given one.
pub fn contains_string(list: &Vec<String>, wanted: &String) -> (found: bool)
    ensures
        found == list.deep_view().contains(wanted@),
{
    let mut i: usize = 0;
    while i < list.len()
        invariant
            i <= list.len(),
            forall|k: int| 0 <= k < i ==> list.deep_view()[k] != wanted@,
        decreases list.len() - i,
    {
        if list[i] == *wanted {
            assert(list.deep_view()[i as int] == wanted@);
            return true;
        }
        i += 1;
    }
    false
}

/// Drops the tokens that are among the given stop words.
pub fn remove_listed_words(tokens: Vec<String>, stops: &Vec<String>) -> (kept: Vec<String>)
    ensures
        kept.deep_view() == without_stop_words(tokens.deep_view(), stops.deep_view()),
{
    let mut kept: Vec<String> = Vec::new();
    let mut i: usize = 0;
    let ghost stop_views = stops.deep_view();
    while i < tokens.len()
        invariant
            i <= tokens.len(),
            stop_views == stops.deep_view(),
            kept.deep_view() == tokens.deep_view().subrange(0, i as int).filter(
                |token: Seq<char>| !stop_views.contains(token),
            ),
        decreases tokens.len() - i,
    {
        proof {
            lemma_filter_next(
                tokens.deep_view(),
                |token: Seq<char>| !stop_views.contains(token),
                i as int,
            );
        }
        if !contains_string(stops, &tokens[i]) {
            let ghost before = kept.deep_view();
            kept.push(tokens[i].clone());
            assert(kept.deep_view() =~= before.push(tokens[i as int]@));
        }
        i += 1;
    }
    assert(tokens.deep_view().subrange(0, i as int) =~= tokens.deep_view());
    kept
}

/// Drops the English stop words from a list of tokens.
pub fn remove_stop_words(tokens: Vec<String>) -> (kept: Vec<String>)
    ensures
        kept.deep_view() == without_stop_words(tokens.deep_view(), english_stop_words()),
{
    let stops = match lookup_stop_words("en") {
        Some(words) => words,
        None => Vec::new(),
    };
    assert(stops.deep_view() =~= english_stop_words());
    remove_listed_words(tokens, &stops)
}

/// Joins tokens with single spaces.
pub fn join_tokens(tokens: &Vec<String>) -> (text: String)
    ensures
        text@ == joined(tokens.deep_view()),
{
    let mut text = String::new();
    let mut i: usize = 0;
    while i < tokens.len()
        invariant
            i <= tokens.len(),
            text@ == joined(tokens.deep_view().subrange(0, i as int)),
        decreases tokens.len() - i,
    {
        proof {
            let next = tokens.deep_view().subrange(0, i + 1);
            assert(next.drop_last() =~= tokens.deep_view().subrange(0, i as int));
            assert(next.last() == tokens[i as int]@);
            reveal_strlit(" ");
            assert(" "@ =~= seq![' ']);
        }
        if i > 0 {
            text.append(" ");
        }
        text.append(tokens[i].as_str());
        proof {
            if i == 0 {
                assert(Seq::<char>::empty() + tokens[i as int]@ =~= tokens[i as int]@);
            }
        }
        i += 1;
    }
    assert(tokens.deep_view().subrange(0, i as int) =~= tokens.deep_view());
    text
}

/// Normalizes a text into its ordered tokens.
pub fn normalize(text: &str) -> (tokens: Vec<String>)
    ensures
        tokens.deep_view() == normalized(text@),
{
    let lowercased_text = to_lowercase(text);
    let cleaned_text = remove_unwanted_characters(lowercased_text.as_str());
    let tokens = tokenize(cleaned_text.as_str());
    remove_stop_words(tokens)
}

/// Normalizes a text and joins its tokens with single spaces.
pub fn process_text(text: &str) -> (processed: String)
    ensures
        processed@ == joined(normalized(text@)),
{
    let tokens = normalize(text);
    join_tokens(&tokens)
}

/// What is left of a text without its leading whitespace is the end of the
/// text, and does not begin with whitespace.
pub proof fn lemma_trim_start(text: Seq<char>)
    ensures
        trim_start(text).len() <= text.len(),
        forall|i: int|
            0 <= i < trim_start(text).len() ==> #[trigger] trim_start(text)[i] == text[i
                + text.len() - trim_start(text).len()],
        trim_start(text).len() > 0 ==> !is_whitespace_char(trim_start(text)[0]),
    decreases text.len(),
{
    if text.len() > 0 && is_whitespace_char(text[0]) {
        let rest = text.drop_first();
        lemma_trim_start(rest);
        let left = trim_start(rest);
        assert forall|i: int| 0 <= i < left.len() implies #[trigger] left[i] == text[i
            + text.len() - left.len()] by {
            assert(left[i] == rest[i + rest.len() - left.len()]);
        }
    }
}

/// What is left of a text without its trailing whitespace is the beginning
/// of the text, and does not end with whitespace.
pub proof fn lemma_trim_end(text: Seq<char>)
    ensures
        trim_end(text).len() <= text.len(),
        forall|i: int| 0 <= i < trim_end(text).len() ==> #[trigger] trim_end(text)[i] == text[i],
        trim_end(text).len() > 0 ==> !is_whitespace_char(trim_end(text).last()),
    decreases text.len(),
{
    if text.len() > 0 && is_whitespace_char(text.last()) {
        let rest = text.drop_last();
        lemma_trim_end(rest);
        let left = trim_end(rest);
        assert forall|i: int| 0 <= i < left.len() implies #[trigger] left[i] == text[i] by {
            assert(left[i] == rest[i]);
        }
    }
}

/// Cleaning what was cleaned changes nothing.
pub proof fn lemma_cleaning_twice(text: Seq<char>)
    ensures
        cleaned(cleaned(text)) == cleaned(text),
{
    let keep = |c: char| is_kept_char(c);
    let kept = kept_chars(text);
    let begun = trim_start(kept);
    let clean = trim_end(begun);
    lemma_trim_start(kept);
    lemma_trim_end(begun);
    assert forall|i: int| 0 <= i < clean.len() implies keep(#[trigger] clean[i]) by {
        let at = i + kept.len() - begun.len();
        assert(clean[i] == begun[i]);
        assert(begun[i] == kept[at]);
        text.lemma_filter_pred(keep, at);
    }
    lemma_filter_keeps_all(clean, keep);
    assert(kept_chars(clean) == clean);
    if clean.len() > 0 {
        assert(clean[0] == begun[0]);
    }
    assert(trim_start(clean) == clean);
    assert(trim_end(clean) == clean);
}

/// Dropping the stop words from what has none of them changes nothing.
pub proof fn lemma_stop_words_dropped_twice(tokens: Seq<Seq<char>>, stops: Seq<Seq<char>>)
    ensures
        without_stop_words(without_stop_words(tokens, stops), stops) == without_stop_words(
            tokens,
            stops,
        ),
{
    lemma_filter_twice(tokens, |token: Seq<char>| !stops.contains(token));
}

/// Tokens that need no normalizing are what their joined text normalizes to:
/// where the text is its own lowercase form and its own cleaned form, where
/// cutting it at word boundaries gives the tokens back, and where none of
/// them is a stop word.
pub proof fn lemma_normal_tokens_stay(tokens: Seq<Seq<char>>)
    requires
        lowercase_of(joined(tokens)) == joined(tokens),
        cleaned(joined(tokens)) == joined(tokens),
        tokens_of(joined(tokens)) == tokens,
        forall|i: int|
            0 <= i < tokens.len() ==> !english_stop_words().contains(#[trigger] tokens[i]),
    ensures
        normalized(joined(tokens)) == tokens,
{
    let stops = english_stop_words();
    lemma_filter_keeps_all(tokens, |token: Seq<char>| !stops.contains(token));
}

} // verus!
