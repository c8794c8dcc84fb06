//! Splitting a manuscript into its sections, at a delimiter that is either
//! plain text or a regular expression of the `regex` crate.

use crate::section_list::{chars_of, is_space, is_space_char};
use regex::Regex;
use vstd::prelude::*;
use vstd::string::*;

verus! {

/// `regex::Error`, which says why a pattern could not be compiled.
#[verifier::external_type_specification]
#[verifier::external_body]
pub struct ExRegexError(regex::Error);

/// What `str::split` yields for a text and a delimiter of plain text, in order.
pub uninterp spec fn plain_split(text: Seq<char>, delimiter: Seq<char>) -> Seq<Seq<char>>;

/// What `Regex::split` yields for a text, in order, where the expression was
/// compiled from `pattern`: the pieces of the text between the matches.
pub uninterp spec fn regex_split(pattern: Seq<char>, text: Seq<char>) -> Seq<Seq<char>>;

/// `Regex::new`, and `Regex::split` with the expression that it yields,
/// collected. Where the pattern does not compile, the reason comes back in
/// place of the pieces. Whether a very large pattern still compiles depends
/// on the machine, so nothing is stated of that.
#[verifier::external_body]
pub(crate) fn split_at_matches(pattern: &str, text: &str) -> (pieces: Result<
    Vec<String>,
    regex::Error,
>)
    ensures
        pieces matches Ok(found) ==> found.deep_view() == regex_split(pattern@, text@),
{
    match Regex::new(pattern) {
        Ok(expression) => Ok(expression.split(text).map(|piece| piece.to_string()).collect()),
        Err(error) => Err(error),
    }
}

/// The text of a `regex::Error`, as its `Display` writes it.
#[verifier::external_body]
pub(crate) fn error_text(error: &regex::Error) -> (text: String) {
    error.to_string()
}

/// `str::split` with a delimiter of plain text, collected.
#[verifier::external_body]
pub(crate) fn split_at_delimiter(text: &str, delimiter: &str) -> (pieces: Vec<String>)
    ensures
        pieces.deep_view() == plain_split(text@, delimiter@),
{
    text.split(delimiter).map(|piece| piece.to_string()).collect()
}

/// `text` without the white space at its beginning.
pub open spec fn trimmed_start(text: Seq<char>) -> Seq<char>
    decreases text.len(),
{
    if text.len() > 0 && is_space(text[0]) {
        trimmed_start(text.skip(1))
    } else {
        text
    }
}

/// `text` without the white space at its end.
pub open spec fn trimmed_end(text: Seq<char>) -> Seq<char>
    decreases text.len(),
{
    if text.len() > 0 && is_space(text.last()) {
        trimmed_end(text.drop_last())
    } else {
        text
    }
}

/// `text` without the white space at its ends.
pub open spec fn trimmed(text: Seq<char>) -> Seq<char> {
    trimmed_end(trimmed_start(text))
}

proof fn lemma_trimmed_start(text: Seq<char>, from: int)
    requires
        0 <= from <= text.len(),
        forall|i: int| 0 <= i < from ==> is_space(#[trigger] text[i]),
        from < text.len() ==> !is_space(text[from]),
    ensures
        trimmed_start(text) == text.skip(from),
    decreases from,
{
    if from > 0 {
        let rest = text.skip(1);
        assert(is_space(text[0]));
        assert forall|i: int| 0 <= i < from - 1 implies is_space(#[trigger] rest[i]) by {
            assert(rest[i] == text[i + 1]);
        }
        lemma_trimmed_start(rest, from - 1);
        assert(rest.skip(from - 1) =~= text.skip(from));
    } else {
        assert(text.skip(0) =~= text);
    }
}

proof fn lemma_trimmed_end(text: Seq<char>, to: int)
    requires
        0 <= to <= text.len(),
        forall|i: int| to <= i < text.len() ==> is_space(#[trigger] text[i]),
        0 < to ==> !is_space(text[to - 1]),
    ensures
        trimmed_end(text) == text.take(to),
    decreases text.len() - to,
{
    if to < text.len() {
        let rest = text.drop_last();
        assert(is_space(text[text.len() - 1]));
        assert forall|i: int| to <= i < rest.len() implies is_space(#[trigger] rest[i]) by {
            assert(rest[i] == text[i]);
        }
        lemma_trimmed_end(rest, to);
        assert(rest.take(to) =~= text.take(to));
    } else {
        assert(text.take(to) =~= text);
    }
}

/// Trims the white space from both ends of `text`.
pub fn trim(text: &str) -> (kept: String)
    ensures
        kept@ == trimmed(text@),
{
    let chars = chars_of(text);
    let count = chars.len();
    let mut from: usize = 0;
    while from < count && is_space_char(chars[from])
        invariant
            from <= count == chars.len(),
            forall|i: int| 0 <= i < from ==> is_space(#[trigger] chars@[i]),
        decreases count - from,
    {
        from += 1;
    }
    let mut to: usize = count;
    while to > from && is_space_char(chars[to - 1])
        invariant
            from <= to <= count == chars.len(),
            forall|i: int| to <= i < count ==> is_space(#[trigger] chars@[i]),
        decreases to,
    {
        to -= 1;
    }
    proof {
        lemma_trimmed_start(text@, from as int);
        let rest = text@.skip(from as int);
        assert forall|i: int| to - from <= i < rest.len() implies is_space(#[trigger] rest[i]) by {
            assert(rest[i] == chars@[from + i]);
        }
        if to > from {
            assert(rest[to - from - 1] == chars@[to - 1]);
        }
        lemma_trimmed_end(rest, to - from);
        assert(rest.take(to - from) =~= text@.subrange(from as int, to as int));
    }
    String::from_str(text.substring_char(from, to))
}

/// Each of `pieces`, trimmed.
pub open spec fn all_trimmed(pieces: Seq<Seq<char>>) -> Seq<Seq<char>> {
    pieces.map_values(|piece: Seq<char>| trimmed(piece))
}

/// The texts of a list of strings.
pub proof fn lemma_texts_view(texts: Vec<String>)
    ensures
        texts.deep_view().len() == texts@.len(),
        forall|i: int| 0 <= i < texts@.len() ==> #[trigger] texts.deep_view()[i] == texts@[i]@,
{
}

/// Trims each of `pieces`.
pub fn trim_all(pieces: &Vec<String>) -> (kept: Vec<String>)
    ensures
        kept.deep_view() == all_trimmed(pieces.deep_view()),
{
    let mut kept: Vec<String> = Vec::new();
    let mut index: usize = 0;
    proof {
        lemma_texts_view(*pieces);
    }
    while index < pieces.len()
        invariant
            index <= pieces.len(),
            kept@.len() == index,
            forall|i: int| 0 <= i < index ==> (#[trigger] kept@[i])@ == trimmed(pieces@[i]@),
        decreases pieces.len() - index,
    {
        kept.push(trim(pieces[index].as_str()));
        index += 1;
    }
    proof {
        lemma_texts_view(kept);
        lemma_texts_view(*pieces);
        assert(kept.deep_view() =~= all_trimmed(pieces.deep_view()));
    }
    kept
}

} // verus!
