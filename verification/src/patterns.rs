//! The patterns that the library looks for in text, and what each of them finds.

use crate::text::{find, first_occurrence, last_occurrence, lines, occurs};
use vstd::prelude::*;

verus! {

/// a newline
pub const NEWLINE: &'static str = "\n";

/// a character that would end or split up a CSS class name
pub const CSS_PUNCTUATION: &'static str = "[{},.:;]";

/// a digit at the start of the text
pub const LEADING_DIGIT: &'static str = "^([0-9])";

/// everything from the first `<clipPath>` to the last `</clipPath>`
pub const CLIP_PATHS: &'static str = "(?s)<clipPath[^>]*>.*</clipPath>\n?";

/// a line that ends in a tag that doesn't close itself
pub const HIERARCHY: &'static str = "(?m)^.*[^/]>\n";

/// what stands between `<svg>` and `</svg>`
pub const SVG_BODY: &'static str = "(?s)<svg[^>]*>\n(.*\n)\\s*</svg>";

/// the blanks before the first tag
pub const INDENTATION: &'static str = "^([ \t]*)<";

/// the start of a line
pub const LINE_START: &'static str = "(?m)^";

/// a tag at the start of a line, and its attributes
pub const TOP_LEVEL_TAG: &'static str = "(?m)^<[a-zA-Z]+([^>]*)>";

/// an attribute: its name, and its value with the quotes around it
pub const ATTRIBUTE: &'static str = "([^\\s=\"']+)\\s*=\\s*(\"[^\"]*\"|'[^']*')";

/// whether the character would end or split up a CSS class name
pub open spec fn is_css_punctuation(c: char) -> bool {
    c == '{' || c == '}' || c == ',' || c == '.' || c == ':' || c == ';'
}

/// the text with an underscore for each character that would end or split up a class name
pub open spec fn without_css_punctuation(text: Seq<char>) -> Seq<char> {
    text.map_values(
        |c: char|
            if is_css_punctuation(c) {
                '_'
            } else {
                c
            },
    )
}

/// the text with an underscore before it if it starts with a digit
pub open spec fn without_leading_digit(text: Seq<char>) -> Seq<char> {
    if text.len() > 0 && '0' <= text[0] <= '9' {
        seq!['_'] + text
    } else {
        text
    }
}

/// the place after the newline that stands here, or else this place
pub open spec fn past_newline(text: Seq<char>, at: int) -> int {
    if 0 <= at < text.len() && text[at] == '\n' {
        at + 1
    } else {
        at
    }
}

/// the text without anything from the first `<clipPath>` to the last `</clipPath>`, and without
/// the newline after that
pub open spec fn without_clip_paths(text: Seq<char>) -> Seq<char> {
    match first_occurrence(text, "<clipPath"@, 0) {
        None => text,
        Some(open) => match last_occurrence(
            text,
            "</clipPath>"@,
            find(text, '>', open + "<clipPath"@.len()) + 1,
        ) {
            None => text,
            Some(close) => text.take(open) + text.skip(
                past_newline(text, close + "</clipPath>"@.len()),
            ),
        },
    }
}

/// the text without the lines that end in a tag that doesn't close itself.  a line that is
/// nothing but `>` is taken as the end of the line before it.
pub open spec fn without_hierarchy(text: Seq<char>) -> Seq<char>
    decreases text.len(),
{
    let end = find(text, '\n', 0);
    if end < 0 || end >= text.len() {
        text
    } else if occurs(text, ">\n"@, end + 1) {
        without_hierarchy(text.skip(end + 1 + ">\n"@.len()))
    } else if end >= 2 && text[end - 1] == '>' && text[end - 2] != '/' {
        without_hierarchy(text.skip(end + 1))
    } else {
        text.take(end + 1) + without_hierarchy(text.skip(end + 1))
    }
}

/// whether Unicode counts the character as white space
pub open spec fn is_white_space(c: char) -> bool {
    ||| '\u{9}' <= c <= '\u{d}'
    ||| c == ' '
    ||| c == '\u{85}'
    ||| c == '\u{a0}'
    ||| c == '\u{1680}'
    ||| '\u{2000}' <= c <= '\u{200a}'
    ||| c == '\u{2028}'
    ||| c == '\u{2029}'
    ||| c == '\u{202f}'
    ||| c == '\u{205f}'
    ||| c == '\u{3000}'
}

/// the first place at or after `from` that is not white space
pub open spec fn past_white_space(text: Seq<char>, from: int) -> int
    decreases text.len() - from,
{
    if 0 <= from < text.len() && is_white_space(text[from]) {
        past_white_space(text, from + 1)
    } else {
        from
    }
}

/// the last place after `from` where a line begins that holds, after any white space, the end
/// of the `<svg>`
pub open spec fn svg_end(text: Seq<char>, from: int, to: int) -> Option<int>
    decreases to - from,
{
    if to <= from || from < 0 || to > text.len() {
        None
    } else if text[to - 1] == '\n' && occurs(text, "</svg>"@, past_white_space(text, to)) {
        Some(to)
    } else {
        svg_end(text, from, to - 1)
    }
}

/// the lines between the first `<svg>` at or after `from` that ends its line and the last
/// `</svg>` that begins one
pub open spec fn svg_body(text: Seq<char>, from: int) -> Option<Seq<char>>
    decreases text.len() - from,
{
    if from < 0 || from >= text.len() {
        None
    } else {
        let start = find(text, '>', from + "<svg"@.len()) + 1;
        if occurs(text, "<svg"@, from) && 0 <= start < text.len() && text[start] == '\n' {
            match svg_end(text, start + 1, text.len() as int) {
                Some(end) => Some(text.subrange(start + 1, end)),
                None => svg_body(text, from + 1),
            }
        } else {
            svg_body(text, from + 1)
        }
    }
}

/// whether the character is a space or a tab
pub open spec fn is_blank(c: char) -> bool {
    c == ' ' || c == '\t'
}

/// how many blanks the text starts with
pub open spec fn leading_blanks(text: Seq<char>) -> nat
    decreases text.len(),
{
    if text.len() > 0 && is_blank(text[0]) {
        1 + leading_blanks(text.drop_first())
    } else {
        0
    }
}

/// the blanks before the tag that the text starts with, if it does
pub open spec fn leading_indentation(text: Seq<char>) -> Option<Seq<char>> {
    let end = leading_blanks(text) as int;
    if end < text.len() && text[end] == '<' {
        Some(text.take(end))
    } else {
        None
    }
}

/// what the first group captures of the first match
pub open spec fn captured(pattern: Seq<char>, text: Seq<char>) -> Option<Seq<char>> {
    if pattern == SVG_BODY@ {
        svg_body(text, 0)
    } else {
        leading_indentation(text)
    }
}

/// the line without the indentation, if it has it
pub open spec fn unindented_line(line: Seq<char>, indentation: Seq<char>) -> Seq<char> {
    if indentation.is_prefix_of(line) {
        line.skip(indentation.len() as int)
    } else {
        line
    }
}

/// the text with the indentation taken off each line that has it
pub open spec fn unindented(text: Seq<char>, indentation: Seq<char>) -> Seq<char> {
    crate::text::joined(
        lines(text).map_values(|line: Seq<char>| unindented_line(line, indentation)),
        "\n"@,
    )
}

/// whether the pattern is the start of a line and then only blanks
pub open spec fn is_indentation_pattern(pattern: Seq<char>) -> bool {
    &&& LINE_START@.is_prefix_of(pattern)
    &&& forall|i: int| LINE_START@.len() <= i < pattern.len() ==> is_blank(#[trigger] pattern[i])
}

/// the text with each match of the pattern replaced
pub open spec fn replaced_all(pattern: Seq<char>, text: Seq<char>) -> Seq<char> {
    if pattern == CSS_PUNCTUATION@ {
        without_css_punctuation(text)
    } else if pattern == CLIP_PATHS@ {
        without_clip_paths(text)
    } else if pattern == HIERARCHY@ {
        without_hierarchy(text)
    } else {
        unindented(text, pattern.skip(LINE_START@.len() as int))
    }
}

/// whether the character is one of the letters from a to z, in either case
pub open spec fn is_letter(c: char) -> bool {
    'a' <= c <= 'z' || 'A' <= c <= 'Z'
}

/// the first place at or after `from` that is not a letter
pub open spec fn past_letters(text: Seq<char>, from: int) -> int
    decreases text.len() - from,
{
    if 0 <= from < text.len() && is_letter(text[from]) {
        past_letters(text, from + 1)
    } else {
        from
    }
}

/// whether a line begins at this place
pub open spec fn is_line_start(text: Seq<char>, at: int) -> bool {
    at == 0 || 0 < at <= text.len() && text[at - 1] == '\n'
}

/// whether a tag begins at this place, at the start of a line
pub open spec fn is_top_level_tag(text: Seq<char>, at: int) -> bool {
    &&& is_line_start(text, at)
    &&& 0 <= at
    &&& at + 1 < text.len()
    &&& text[at] == '<'
    &&& is_letter(text[at + 1])
    &&& find(text, '>', at + 1) < text.len()
}

/// where the attributes of each top-level tag at or after `from` begin and end
pub open spec fn attribute_lists(text: Seq<char>, from: int) -> Seq<(int, int)>
    decreases text.len() - from,
{
    if from < 0 || from >= text.len() {
        Seq::empty()
    } else if is_top_level_tag(text, from) && find(text, '>', from + 1) >= from {
        seq![(past_letters(text, from + 1), find(text, '>', from + 1))] + attribute_lists(
            text,
            find(text, '>', from + 1) + 1,
        )
    } else {
        attribute_lists(text, from + 1)
    }
}

/// whether values can stand between two of these
pub open spec fn is_quote(c: char) -> bool {
    c == '"' || c == '\''
}

/// whether the character can be part of the name of an attribute
pub open spec fn is_name_char(c: char) -> bool {
    !is_white_space(c) && c != '=' && !is_quote(c)
}

/// the first place at or after `from` that can't be part of the name of an attribute
pub open spec fn past_name(text: Seq<char>, from: int) -> int
    decreases text.len() - from,
{
    if 0 <= from < text.len() && is_name_char(text[from]) {
        past_name(text, from + 1)
    } else {
        from
    }
}

/// where the name of an attribute and its value begin and end.  the quotes around the value are
/// not part of it.
pub struct Attribute {
    pub name: (int, int),
    pub value: (int, int),
}

/// the attribute whose name stands at this place, if there is one
pub open spec fn attribute_at(text: Seq<char>, at: int) -> Option<Attribute> {
    let name_end = past_name(text, at);
    let equals = past_white_space(text, name_end);
    let open = past_white_space(text, equals + 1);
    let close = find(text, text[open], open + 1);
    if 0 <= at < name_end && equals < text.len() && text[equals] == '=' && open < text.len()
        && is_quote(text[open]) && close < text.len() {
        Some(Attribute { name: (at, name_end), value: (open + 1, close) })
    } else {
        None
    }
}

/// the attributes at or after `from`, none of them inside the value of another
pub open spec fn attributes(text: Seq<char>, from: int) -> Seq<Attribute>
    decreases text.len() - from,
{
    if from < 0 || from >= text.len() {
        Seq::empty()
    } else {
        match attribute_at(text, from) {
            Some(attribute) => if attribute.value.1 >= from {
                seq![attribute] + attributes(text, attribute.value.1 + 1)
            } else {
                Seq::empty()
            },
            None => attributes(text, from + 1),
        }
    }
}

/// what a group captures of each match: the attributes of each top-level tag, or the name of each
/// attribute, or its value with the quotes around it
pub open spec fn spans(pattern: Seq<char>, text: Seq<char>, group: usize) -> Seq<(int, int)> {
    if pattern == TOP_LEVEL_TAG@ {
        attribute_lists(text, 0)
    } else {
        attributes(text, 0).map_values(
            |attribute: Attribute|
                if group == 1 {
                    attribute.name
                } else {
                    (attribute.value.0 - 1, attribute.value.1 + 1)
                },
        )
    }
}

} // verus!
