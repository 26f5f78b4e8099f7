//! What the library takes on trust: the calls into `regex`, into `titlecase`, and into the parts
//! of the standard library that deal with whole strings.

use crate::patterns::{
    captured, is_indentation_pattern, replaced_all, spans, without_leading_digit, ATTRIBUTE,
    CLIP_PATHS, CSS_PUNCTUATION, HIERARCHY, INDENTATION, LEADING_DIGIT, NEWLINE, SVG_BODY,
    TOP_LEVEL_TAG,
};
use crate::text::{byte_offset, first_occurrence, lines, opt_view, views};
use regex::Regex;
use vstd::prelude::*;

verus! {

/// the text in lower case, as `str::to_lowercase` gives it
pub uninterp spec fn lower_case(text: Seq<char>) -> Seq<char>;

/// the text in upper case, as `str::to_uppercase` gives it
pub uninterp spec fn upper_case(text: Seq<char>) -> Seq<char>;

/// the text in title case, as `titlecase::titlecase` gives it
pub uninterp spec fn title_case(text: Seq<char>) -> Seq<char>;

/// whether `regex::Regex::new` accepts the pattern
pub uninterp spec fn regex_compiles(pattern: Seq<char>) -> bool;

/// the text with a string before each of its characters and one more at the end
pub open spec fn interleaved(text: Seq<char>, with: Seq<char>) -> Seq<char>
    decreases text.len(),
{
    if text.len() == 0 {
        with
    } else {
        with + seq![text[0]] + interleaved(text.drop_first(), with)
    }
}

/// the text with each disjoint occurrence of a word replaced, from left to right.  nothing occurs
/// before each character and at the end.
pub open spec fn replaced(text: Seq<char>, from: Seq<char>, to: Seq<char>) -> Seq<char>
    decreases text.len(),
{
    if from.len() == 0 {
        interleaved(text, to)
    } else {
        match first_occurrence(text, from, 0) {
            Some(at) => if 0 <= at && at + from.len() <= text.len() {
                text.take(at) + to + replaced(text.skip(at + from.len()), from, to)
            } else {
                text
            },
            None => text,
        }
    }
}

/// Calls `str::to_lowercase`.  Its result is named and not described: the lower case of a
/// character is a table of Unicode's.
#[verifier::external_body]
pub(crate) fn to_lowercase(text: &str) -> (s: String)
    ensures
        s@ == lower_case(text@),
{
    text.to_lowercase()
}

/// Calls `str::to_uppercase`.  Its result is named and not described: the upper case of a
/// character is a table of Unicode's.
#[verifier::external_body]
pub(crate) fn to_uppercase(text: &str) -> (s: String)
    ensures
        s@ == upper_case(text@),
{
    text.to_uppercase()
}

/// Calls `titlecase::titlecase`.  Its result is named and not described: it rests on lists of
/// small words and on a dozen patterns.
#[verifier::external_body]
pub(crate) fn to_titlecase(text: &str) -> (s: String)
    ensures
        s@ == title_case(text@),
{
    titlecase::titlecase(text)
}

/// Calls `str::replace`: each occurrence of the word, from left to right and none overlapping
/// another, gives way to the replacement.  The empty word is found at each boundary between
/// characters, so there the replacement stands before each character and at the end.
#[verifier::external_body]
pub(crate) fn replace(text: &str, from: &str, to: &str) -> (s: String)
    ensures
        s@ == replaced(text@, from@, to@),
{
    text.replace(from, to)
}

/// Calls `regex::Regex::new`, only to find out whether it accepts the pattern.
#[verifier::external_body]
pub(crate) fn compiles(pattern: &str) -> (b: bool)
    ensures
        b == regex_compiles(pattern@),
{
    Regex::new(pattern).is_ok()
}

/// Calls `regex::Regex::split` with the pattern of a newline: what comes back are the sections of
/// the text between its newlines.
#[verifier::external_body]
pub(crate) fn split(pattern: &str, text: &str) -> (parts: Vec<String>)
    requires
        pattern@ == NEWLINE@,
    ensures
        views(parts@) == lines(text@),
{
    Regex::new(pattern).unwrap().split(text).map(|part| part.to_string()).collect()
}

/// Calls `regex::Regex::replace` with the pattern of a digit at the start of the text: if there is
/// one, an underscore is put before it.
#[verifier::external_body]
pub(crate) fn replace_first(pattern: &str, text: &str, replacement: &str) -> (s: String)
    requires
        pattern@ == LEADING_DIGIT@,
        replacement@ == "_$1"@,
    ensures
        s@ == without_leading_digit(text@),
{
    Regex::new(pattern).unwrap().replace(text, replacement).into_owned()
}

/// Calls `regex::Regex::replace_all` with one of the library's patterns.  For each of them the
/// result is described: punctuation gives way to underscores, and everything else that is matched
/// gives way to nothing.
#[verifier::external_body]
pub(crate) fn replace_all(pattern: &str, text: &str, replacement: &str) -> (s: String)
    requires
        pattern@ == CSS_PUNCTUATION@ || pattern@ == CLIP_PATHS@ || pattern@ == HIERARCHY@ || (
        is_indentation_pattern(pattern@) && regex_compiles(pattern@)),
        replacement@ == (if pattern@ == CSS_PUNCTUATION@ {
            "_"@
        } else {
            ""@
        }),
    ensures
        s@ == replaced_all(pattern@, text@),
{
    Regex::new(pattern).unwrap().replace_all(text, replacement).into_owned()
}

/// Calls `regex::Regex::captures` with one of the library's patterns, and keeps what the first
/// group captured: the lines inside an `<svg>`, or the blanks before a tag.
#[verifier::external_body]
pub(crate) fn capture(pattern: &str, text: &str) -> (s: Option<String>)
    requires
        pattern@ == SVG_BODY@ || pattern@ == INDENTATION@,
    ensures
        opt_view(s) == captured(pattern@, text@),
{
    match Regex::new(pattern).unwrap().captures(text) {
        Some(captures) => captures.get(1).map(|group| group.as_str().to_string()),
        None => None,
    }
}

/// Calls `regex::Regex::captures_iter` with the pattern of a top-level tag or that of an attribute,
/// and keeps the bytes that one of the groups captured each time: the attributes of each tag that
/// begins a line, or the name of each attribute, or its value with the quotes around it.
#[verifier::external_body]
pub(crate) fn capture_each(pattern: &str, text: &str, group: usize) -> (found: Vec<(usize, usize)>)
    requires
        (pattern@ == TOP_LEVEL_TAG@ && group == 1) || (pattern@ == ATTRIBUTE@ && 1 <= group <= 2),
    ensures
        found@.len() == spans(pattern@, text@, group).len(),
        forall|i: int|
            0 <= i < found@.len() ==> {
                &&& (#[trigger] found@[i]).0 == byte_offset(text@, spans(pattern@, text@, group)[i].0)
                &&& found@[i].1 == byte_offset(text@, spans(pattern@, text@, group)[i].1)
            },
{
    Regex::new(pattern).unwrap().captures_iter(text).map(
        |captures| captures.get(group).map(|span| (span.start(), span.end())).unwrap(),
    ).collect()
}

} // verus!
