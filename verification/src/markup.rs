//! Text that goes into the document: how it is escaped, made into class names, and indented.

use crate::outside::{
    lower_case, replace, replace_all, replace_first, replaced, split, to_lowercase,
};
use crate::patterns::{
    is_css_punctuation, without_css_punctuation, without_leading_digit, CSS_PUNCTUATION,
    LEADING_DIGIT, NEWLINE,
};
use crate::text::{
    first_occurrence, join, joined, law_joined_lines_come_apart, law_lines_make_up_the_text,
    law_newlines_separate_lines, law_parts_are_joined_in_order, lemma_occurrence_fits, lines,
    occurs, views,
};
use vstd::prelude::*;
use vstd::string::StringExecFns;

verus! {

/// the escape sequence for a character that XML would take for its own, or else the character
pub open spec fn xml_escape(c: char) -> Seq<char> {
    if c == '&' {
        "&amp;"@
    } else if c == '<' {
        "&lt;"@
    } else if c == '>' {
        "&gt;"@
    } else if c == '\'' {
        "&apos;"@
    } else if c == '"' {
        "&quot;"@
    } else {
        seq![c]
    }
}

/// the text with the escape sequence for each character that XML would take for its own
pub open spec fn xml_escaped(text: Seq<char>) -> Seq<char>
    decreases text.len(),
{
    if text.len() == 0 {
        Seq::empty()
    } else {
        xml_escape(text[0]) + xml_escaped(text.drop_first())
    }
}

/// the text with each escape sequence read back as the character it stands for
pub open spec fn xml_unescaped(text: Seq<char>) -> Seq<char>
    decreases text.len(),
{
    if text.len() == 0 {
        Seq::empty()
    } else if "&amp;"@.is_prefix_of(text) && "&amp;"@.len() > 0 {
        seq!['&'] + xml_unescaped(text.skip("&amp;"@.len() as int))
    } else if "&lt;"@.is_prefix_of(text) && "&lt;"@.len() > 0 {
        seq!['<'] + xml_unescaped(text.skip("&lt;"@.len() as int))
    } else if "&gt;"@.is_prefix_of(text) && "&gt;"@.len() > 0 {
        seq!['>'] + xml_unescaped(text.skip("&gt;"@.len() as int))
    } else if "&apos;"@.is_prefix_of(text) && "&apos;"@.len() > 0 {
        seq!['\''] + xml_unescaped(text.skip("&apos;"@.len() as int))
    } else if "&quot;"@.is_prefix_of(text) && "&quot;"@.len() > 0 {
        seq!['"'] + xml_unescaped(text.skip("&quot;"@.len() as int))
    } else {
        seq![text[0]] + xml_unescaped(text.drop_first())
    }
}

/// the text with a string for each of one character
spec fn substituted(text: Seq<char>, c: char, to: Seq<char>) -> Seq<char>
    decreases text.len(),
{
    if text.len() == 0 {
        Seq::empty()
    } else if text[0] == c {
        to + substituted(text.drop_first(), c, to)
    } else {
        seq![text[0]] + substituted(text.drop_first(), c, to)
    }
}

proof fn lemma_occurrence_shifts(text: Seq<char>, word: Seq<char>, from: int)
    requires
        text.len() > 0,
        0 <= from,
    ensures
        first_occurrence(text, word, from + 1) == match first_occurrence(
            text.drop_first(),
            word,
            from,
        ) {
            Some(at) => Some(at + 1),
            None => None,
        },
    decreases text.len() - from,
{
    let rest = text.drop_first();
    if from <= rest.len() {
        if from + word.len() <= rest.len() {
            assert(rest.subrange(from, from + word.len()) =~= text.subrange(
                from + 1,
                from + 1 + word.len(),
            ));
        }
        lemma_occurrence_shifts(text, word, from + 1);
    }
}

proof fn lemma_replace_one(text: Seq<char>, c: char, to: Seq<char>)
    ensures
        replaced(text, seq![c], to) == substituted(text, c, to),
    decreases text.len(),
{
    let word = seq![c];
    if text.len() == 0 {
        assert(!occurs(text, word, 0));
        assert(first_occurrence(text, word, 1) is None);
        assert(replaced(text, word, to) =~= substituted(text, c, to));
    } else {
        let rest = text.drop_first();
        lemma_replace_one(rest, c, to);
        assert(text.subrange(0, 1) =~= seq![text[0]]);
        assert(text.skip(1) =~= rest);
        if text[0] == c {
            assert(text.subrange(0, 1) =~= word);
            assert(occurs(text, word, 0));
            assert(first_occurrence(text, word, 0) == Some(0int));
            assert(text.take(0) + to =~= to);
        } else {
            assert(text.subrange(0, 1)[0] != word[0]);
            assert(!occurs(text, word, 0));
            lemma_occurrence_shifts(text, word, 0);
            match first_occurrence(rest, word, 0) {
                Some(at) => {
                    assert(first_occurrence(text, word, 0) == Some(at + 1));
                    lemma_occurrence_fits(rest, word, 0);
                    assert(text.take(at + 1) =~= seq![text[0]] + rest.take(at));
                    assert(text.skip(at + 1 + 1) =~= rest.skip(at + 1));
                    assert(replaced(text, word, to) =~= seq![text[0]] + replaced(rest, word, to));
                },
                None => {
                    assert(text =~= seq![text[0]] + rest);
                },
            }
        }
    }
}

proof fn lemma_substituted_concat(a: Seq<char>, b: Seq<char>, c: char, to: Seq<char>)
    ensures
        substituted(a + b, c, to) == substituted(a, c, to) + substituted(b, c, to),
    decreases a.len(),
{
    if a.len() == 0 {
        assert(a + b =~= b);
        assert(substituted(a, c, to) + substituted(b, c, to) =~= substituted(b, c, to));
    } else {
        lemma_substituted_concat(a.drop_first(), b, c, to);
        assert((a + b).drop_first() =~= a.drop_first() + b);
        assert(substituted(a + b, c, to) =~= substituted(a, c, to) + substituted(b, c, to));
    }
}

proof fn lemma_substituted_without(text: Seq<char>, c: char, to: Seq<char>)
    requires
        !text.contains(c),
    ensures
        substituted(text, c, to) == text,
    decreases text.len(),
{
    if text.len() > 0 {
        assert(text.contains(text[0]));
        assert forall|d: char| text.drop_first().contains(d) implies text.contains(d) by {
            let i = choose|i: int| 0 <= i < text.drop_first().len() && text.drop_first()[i] == d;
            assert(text[i + 1] == d);
        }
        lemma_substituted_without(text.drop_first(), c, to);
        assert(substituted(text, c, to) =~= text);
    } else {
        assert(substituted(text, c, to) =~= text);
    }
}

/// the five substitutions in the order in which they are made
spec fn substituted_in_turn(text: Seq<char>) -> Seq<char> {
    let text = substituted(text, '&', "&amp;"@);
    let text = substituted(text, '<', "&lt;"@);
    let text = substituted(text, '>', "&gt;"@);
    let text = substituted(text, '\'', "&apos;"@);
    substituted(text, '"', "&quot;"@)
}

proof fn lemma_in_turn_concat(a: Seq<char>, b: Seq<char>)
    ensures
        substituted_in_turn(a + b) == substituted_in_turn(a) + substituted_in_turn(b),
{
    lemma_substituted_concat(a, b, '&', "&amp;"@);
    let (a, b) = (substituted(a, '&', "&amp;"@), substituted(b, '&', "&amp;"@));
    lemma_substituted_concat(a, b, '<', "&lt;"@);
    let (a, b) = (substituted(a, '<', "&lt;"@), substituted(b, '<', "&lt;"@));
    lemma_substituted_concat(a, b, '>', "&gt;"@);
    let (a, b) = (substituted(a, '>', "&gt;"@), substituted(b, '>', "&gt;"@));
    lemma_substituted_concat(a, b, '\'', "&apos;"@);
    let (a, b) = (substituted(a, '\'', "&apos;"@), substituted(b, '\'', "&apos;"@));
    lemma_substituted_concat(a, b, '"', "&quot;"@);
}

proof fn lemma_substituted_single(c: char, d: char, to: Seq<char>)
    ensures
        substituted(seq![c], d, to) == (if c == d {
            to
        } else {
            seq![c]
        }),
{
    assert(seq![c].drop_first() =~= Seq::<char>::empty());
    assert(substituted(seq![c].drop_first(), d, to) =~= Seq::<char>::empty());
    assert(to + Seq::<char>::empty() =~= to);
    assert(seq![c] + Seq::<char>::empty() =~= seq![c]);
}

proof fn lemma_in_turn_single(c: char)
    ensures
        substituted_in_turn(seq![c]) == xml_escape(c),
{
    reveal_strlit("&amp;");
    reveal_strlit("&lt;");
    reveal_strlit("&gt;");
    reveal_strlit("&apos;");
    reveal_strlit("&quot;");
    lemma_substituted_single(c, '&', "&amp;"@);
    if c == '&' {
        lemma_substituted_without("&amp;"@, '<', "&lt;"@);
        lemma_substituted_without("&amp;"@, '>', "&gt;"@);
        lemma_substituted_without("&amp;"@, '\'', "&apos;"@);
        lemma_substituted_without("&amp;"@, '"', "&quot;"@);
    } else {
        lemma_substituted_single(c, '<', "&lt;"@);
        if c == '<' {
            lemma_substituted_without("&lt;"@, '>', "&gt;"@);
            lemma_substituted_without("&lt;"@, '\'', "&apos;"@);
            lemma_substituted_without("&lt;"@, '"', "&quot;"@);
        } else {
            lemma_substituted_single(c, '>', "&gt;"@);
            if c == '>' {
                lemma_substituted_without("&gt;"@, '\'', "&apos;"@);
                lemma_substituted_without("&gt;"@, '"', "&quot;"@);
            } else {
                lemma_substituted_single(c, '\'', "&apos;"@);
                if c == '\'' {
                    lemma_substituted_without("&apos;"@, '"', "&quot;"@);
                } else {
                    lemma_substituted_single(c, '"', "&quot;"@);
                }
            }
        }
    }
}

proof fn lemma_in_turn(text: Seq<char>)
    ensures
        substituted_in_turn(text) == xml_escaped(text),
    decreases text.len(),
{
    if text.len() == 0 {
        assert(substituted_in_turn(text) =~= Seq::<char>::empty());
    } else {
        assert(text =~= seq![text[0]] + text.drop_first());
        lemma_in_turn_concat(seq![text[0]], text.drop_first());
        lemma_in_turn_single(text[0]);
        lemma_in_turn(text.drop_first());
    }
}

/// escaping loses nothing: read back, an escaped text is the text it was made from
pub proof fn law_escaping_can_be_undone(text: Seq<char>)
    ensures
        xml_unescaped(xml_escaped(text)) == text,
    decreases text.len(),
{
    reveal_strlit("&amp;");
    reveal_strlit("&lt;");
    reveal_strlit("&gt;");
    reveal_strlit("&apos;");
    reveal_strlit("&quot;");
    if text.len() > 0 {
        let first = xml_escape(text[0]);
        let rest = xml_escaped(text.drop_first());
        let escaped = first + rest;
        law_escaping_can_be_undone(text.drop_first());
        assert(escaped.skip(first.len() as int) =~= rest);
        assert(escaped[0] == first[0]);
        assert(escaped.subrange(0, first.len() as int) =~= first);
        if text[0] == '<' || text[0] == '>' || text[0] == '\'' || text[0] == '"' {
            assert(escaped[1] == first[1]);
            assert("&amp;"@.is_prefix_of(escaped) ==> escaped[2] == "&amp;"@[2]);
            assert("&amp;"@.is_prefix_of(escaped) ==> escaped[1] == "&amp;"@[1]);
            assert("&apos;"@.is_prefix_of(escaped) ==> escaped[1] == "&apos;"@[1]);
            assert("&lt;"@.is_prefix_of(escaped) ==> escaped[1] == "&lt;"@[1]);
            assert("&gt;"@.is_prefix_of(escaped) ==> escaped[1] == "&gt;"@[1]);
            if text[0] == '\'' {
                assert(escaped[2] == first[2]);
            }
        } else if text[0] != '&' {
            assert("&amp;"@.is_prefix_of(escaped) ==> escaped[0] == "&amp;"@[0]);
            assert("&lt;"@.is_prefix_of(escaped) ==> escaped[0] == "&lt;"@[0]);
            assert("&gt;"@.is_prefix_of(escaped) ==> escaped[0] == "&gt;"@[0]);
            assert("&apos;"@.is_prefix_of(escaped) ==> escaped[0] == "&apos;"@[0]);
            assert("&quot;"@.is_prefix_of(escaped) ==> escaped[0] == "&quot;"@[0]);
            assert(escaped.drop_first() =~= rest);
        }
        assert(xml_unescaped(escaped) =~= seq![text[0]] + xml_unescaped(rest));
        assert(seq![text[0]] + text.drop_first() =~= text);
    } else {
        assert(xml_unescaped(xml_escaped(text)) =~= text);
    }
}

/// an escaped text has no character left that could end the element or the attribute it is put
/// into, or begin another
pub proof fn law_escaped_text_is_inert(text: Seq<char>)
    ensures
        !xml_escaped(text).contains('<'),
        !xml_escaped(text).contains('>'),
        !xml_escaped(text).contains('\''),
        !xml_escaped(text).contains('"'),
    decreases text.len(),
{
    reveal_strlit("&amp;");
    reveal_strlit("&lt;");
    reveal_strlit("&gt;");
    reveal_strlit("&apos;");
    reveal_strlit("&quot;");
    if text.len() > 0 {
        let first = xml_escape(text[0]);
        let rest = xml_escaped(text.drop_first());
        law_escaped_text_is_inert(text.drop_first());
        assert forall|i: int| 0 <= i < (first + rest).len() implies (first + rest)[i] != '<' && (first
            + rest)[i] != '>' && (first + rest)[i] != '\'' && (first + rest)[i] != '"' by {
            if i >= first.len() {
                assert(rest.contains(rest[i - first.len()]));
            }
        }
    }
}

/// replace problematic characters like & to their XML escape sequences
pub fn sanitize_XML(string: &str) -> (s: String)
    ensures
        s@ == xml_escaped(string@),
{
    proof {
        reveal_strlit("&");
        reveal_strlit("<");
        reveal_strlit(">");
        reveal_strlit("'");
        reveal_strlit("\"");
        assert("&"@ =~= seq!['&']);
        assert("<"@ =~= seq!['<']);
        assert(">"@ =~= seq!['>']);
        assert("'"@ =~= seq!['\'']);
        assert("\""@ =~= seq!['"']);
    }
    let s = replace(string, "&", "&amp;");
    proof {
        lemma_replace_one(string@, '&', "&amp;"@);
    }
    let ghost before = s@;
    let s = replace(s.as_str(), "<", "&lt;");
    proof {
        lemma_replace_one(before, '<', "&lt;"@);
    }
    let ghost before = s@;
    let s = replace(s.as_str(), ">", "&gt;");
    proof {
        lemma_replace_one(before, '>', "&gt;"@);
    }
    let ghost before = s@;
    let s = replace(s.as_str(), "'", "&apos;");
    proof {
        lemma_replace_one(before, '\'', "&apos;"@);
    }
    let ghost before = s@;
    let s = replace(s.as_str(), "\"", "&quot;");
    proof {
        lemma_replace_one(before, '"', "&quot;"@);
        lemma_in_turn(string@);
    }
    s
}

/// the text as a CSS class name: in lower case, and without anything that would end or split up
/// the name
pub open spec fn css_class(text: Seq<char>) -> Seq<char> {
    without_leading_digit(without_css_punctuation(lower_case(text)))
}

/// a class name has no punctuation in it, and doesn't start with a digit
pub proof fn law_class_names_are_whole(text: Seq<char>)
    ensures
        forall|i: int| 0 <= i < css_class(text).len() ==> !is_css_punctuation(#[trigger] css_class(text)[i]),
        css_class(text).len() > 0 ==> !('0' <= css_class(text)[0] <= '9'),
        css_class(text).len() == 0 <==> lower_case(text).len() == 0,
{
}

/// replace problematic characters like , to _ in text that is in lower case already
pub fn sanitize_lower_case(string: &str) -> (s: String)
    ensures
        s@ == without_leading_digit(without_css_punctuation(string@)),
{
    let s = replace_all(CSS_PUNCTUATION, string, "_");
    replace_first(LEADING_DIGIT, s.as_str(), "_$1")
}

/// replace problematic characters like , to _ and make it all lowercase
pub fn sanitize_CSS(string: &str) -> (s: String)
    ensures
        s@ == css_class(string@),
{
    let lower = to_lowercase(string);
    sanitize_lower_case(lower.as_str())
}

/// the text with an underscore for each space
pub open spec fn without_spaces(text: Seq<char>) -> Seq<char> {
    text.map_values(
        |c: char|
            if c == ' ' {
                '_'
            } else {
                c
            },
    )
}

proof fn lemma_without_spaces(text: Seq<char>)
    ensures
        substituted(text, ' ', seq!['_']) == without_spaces(text),
    decreases text.len(),
{
    if text.len() > 0 {
        lemma_without_spaces(text.drop_first());
    }
    assert(substituted(text, ' ', seq!['_']) =~= without_spaces(text));
}

/// put underscores for the spaces in a class name, which would split it up
pub fn join_words(string: &str) -> (s: String)
    ensures
        s@ == without_spaces(string@),
{
    proof {
        reveal_strlit(" ");
        reveal_strlit("_");
        assert(" "@ =~= seq![' ']);
        assert("_"@ =~= seq!['_']);
        lemma_replace_one(string@, ' ', "_"@);
        lemma_without_spaces(string@);
    }
    replace(string, " ", "_")
}

/// the text with the prefix at the start of each of its lines
pub open spec fn prefixed(text: Seq<char>, prefix: Seq<char>) -> Seq<char> {
    joined(lines(text).map_values(|line: Seq<char>| prefix + line), "\n"@)
}

/// whether the text ends in a newline
pub open spec fn ends_line(text: Seq<char>) -> bool {
    text.len() > 0 && text.last() == '\n'
}

/// the text with the prefix at the start of each of its lines.  what comes after a newline at the
/// end is not taken for another line.
pub open spec fn indented(text: Seq<char>, prefix: Seq<char>) -> Seq<char> {
    if ends_line(text) {
        prefixed(text.drop_last(), prefix) + "\n"@
    } else {
        prefixed(text, prefix)
    }
}

/// a prefix without newlines leaves the lines as they are but for the prefix before each
pub proof fn law_lines_are_kept(text: Seq<char>, prefix: Seq<char>)
    requires
        !prefix.contains('\n'),
    ensures
        lines(prefixed(text, prefix)) == lines(text).map_values(
            |line: Seq<char>| prefix + line,
        ),
{
    lemma_prefixed_lines(text, prefix);
    law_joined_lines_come_apart(lines(text).map_values(|line: Seq<char>| prefix + line));
}

proof fn lemma_prefixed_lines(text: Seq<char>, prefix: Seq<char>)
    requires
        !prefix.contains('\n'),
    ensures
        ({
            let parts = lines(text).map_values(|line: Seq<char>| prefix + line);
            &&& parts.len() >= 1
            &&& forall|i: int| 0 <= i < parts.len() ==> !(#[trigger] parts[i]).contains('\n')
        }),
{
    law_lines_make_up_the_text(text);
    let parts = lines(text).map_values(|line: Seq<char>| prefix + line);
    assert forall|i: int| 0 <= i < parts.len() implies !(#[trigger] parts[i]).contains('\n') by {
        let line = lines(text)[i];
        assert(!line.contains('\n'));
        assert forall|j: int| 0 <= j < parts[i].len() implies parts[i][j] != '\n' by {
            if j < prefix.len() {
                assert(prefix.contains(prefix[j]));
            } else {
                assert(line.contains(line[j - prefix.len()]));
            }
        }
    }
}

/// each line of an indented text has the prefix, but for the nothing after a newline at the end
pub proof fn law_each_line_is_indented(text: Seq<char>, prefix: Seq<char>)
    requires
        !prefix.contains('\n'),
    ensures
        lines(indented(text, prefix)) == (if ends_line(text) {
            lines(text.drop_last()).map_values(|line: Seq<char>| prefix + line).push(Seq::empty())
        } else {
            lines(text).map_values(|line: Seq<char>| prefix + line)
        }),
{
    if ends_line(text) {
        let body = text.drop_last();
        lemma_prefixed_lines(body, prefix);
        let parts = lines(body).map_values(|line: Seq<char>| prefix + line);
        let all = parts.push(Seq::empty());
        assert(all.drop_last() =~= parts);
        assert(joined(all, "\n"@) =~= indented(text, prefix));
        law_joined_lines_come_apart(all);
    } else {
        law_lines_are_kept(text, prefix);
    }
}

/// break the string up at newlines and add the given string to the start of each section
pub fn prepend_to_each_line(string: &str, prefix: &str) -> (s: String)
    ensures
        s@ == prefixed(string@, prefix@),
{
    let parts = split(NEWLINE, string);
    let mut new_parts: Vec<String> = Vec::new();
    for i in 0..parts.len()
        invariant
            views(parts@) == lines(string@),
            views(new_parts@) == lines(string@).take(i as int).map_values(
                |line: Seq<char>| prefix@ + line,
            ),
    {
        assert(views(parts@)[i as int] == parts@[i as int]@);
        let mut part = prefix.to_owned();
        part.append(parts[i].as_str());
        let ghost before = new_parts@;
        new_parts.push(part);
        assert(views(new_parts@) =~= views(before).push(part@));
        assert(lines(string@).take(i + 1) =~= lines(string@).take(i as int).push(
            lines(string@)[i as int],
        ));
        assert(views(new_parts@) =~= lines(string@).take(i + 1).map_values(
            |line: Seq<char>| prefix@ + line,
        ));
    }
    assert(lines(string@).take(parts@.len() as int) =~= lines(string@));
    join(&new_parts, "\n")
}

/// a text ends in a newline if there is nothing on its last line and that is not its only one
proof fn lemma_last_line(text: Seq<char>)
    ensures
        lines(text).len() >= 1,
        ends_line(text) <==> lines(text).len() > 1 && lines(text).last().len() == 0,
        ends_line(text) ==> joined(lines(text).drop_last(), "\n"@) == text.drop_last(),
{
    reveal_strlit("\n");
    law_lines_make_up_the_text(text);
    let parts = lines(text);
    let last = parts.last();
    assert(parts[parts.len() - 1] == last);
    if last.len() > 0 {
        assert(last.contains(last[last.len() - 1]));
        assert(text.last() == last.last());
    } else if parts.len() > 1 {
        assert(text =~= joined(parts.drop_last(), "\n"@) + "\n"@);
        assert(text.drop_last() =~= joined(parts.drop_last(), "\n"@));
    }
}

/// add the given string to the start of each line, but not after a newline at the end
pub fn indent(text: &str, prefix: &str) -> (s: String)
    ensures
        s@ == indented(text@, prefix@),
{
    let mut parts = split(NEWLINE, text);
    proof {
        lemma_last_line(text@);
        assert(parts@.len() == views(parts@).len());
        assert(views(parts@).last() == parts@.last()@);
    }
    let n = parts.len();
    if n > 1 && parts[n - 1].as_str().is_empty() {
        // take the newline off and put it back afterward
        let ghost all = parts@;
        parts.pop();
        assert(views(parts@) =~= views(all).drop_last());
        let body = join(&parts, "\n");
        let mut s = prepend_to_each_line(body.as_str(), prefix);
        s.append("\n");
        s
    } else {
        prepend_to_each_line(text, prefix)
    }
}

/// the escape sequences are those of XML, and the rest of the text stays as it is
pub proof fn law_text_is_escaped_character_by_character(before: Seq<char>, c: char, after: Seq<char>)
    ensures
        xml_escaped(before + seq![c] + after) == xml_escaped(before) + xml_escaped(seq![c])
            + xml_escaped(after),
        xml_escaped(seq![c]) == (if c == '&' {
            "&amp;"@
        } else if c == '<' {
            "&lt;"@
        } else if c == '>' {
            "&gt;"@
        } else if c == '\'' {
            "&apos;"@
        } else if c == '"' {
            "&quot;"@
        } else {
            seq![c]
        }),
        xml_escaped(Seq::empty()) == Seq::<char>::empty(),
{
    lemma_escaped_concat(before, seq![c] + after);
    lemma_escaped_concat(seq![c], after);
    assert(before + seq![c] + after =~= before + (seq![c] + after));
    assert(seq![c].drop_first() =~= Seq::empty());
    assert(xml_escaped(seq![c].drop_first()) =~= Seq::empty());
    assert(xml_escaped(seq![c]) =~= xml_escape(c));
    assert(xml_escaped(before) + (xml_escaped(seq![c]) + xml_escaped(after)) =~= xml_escaped(before)
        + xml_escaped(seq![c]) + xml_escaped(after));
}

proof fn lemma_escaped_concat(a: Seq<char>, b: Seq<char>)
    ensures
        xml_escaped(a + b) == xml_escaped(a) + xml_escaped(b),
    decreases a.len(),
{
    if a.len() == 0 {
        assert(a + b =~= b);
        assert(xml_escaped(a) + xml_escaped(b) =~= xml_escaped(b));
    } else {
        lemma_escaped_concat(a.drop_first(), b);
        assert((a + b).drop_first() =~= a.drop_first() + b);
        assert(xml_escape(a[0]) + (xml_escaped(a.drop_first()) + xml_escaped(b)) =~= (xml_escape(
            a[0],
        ) + xml_escaped(a.drop_first())) + xml_escaped(b));
    }
}

/// a class name is the text in lower case, with underscores for `{`, `}`, `,`, `.`, `:`, and `;`, and
/// with another before a digit that it would start with
pub proof fn law_class_names_are_the_text(text: Seq<char>)
    ensures
        ({
            let lower = lower_case(text);
            let name = css_class(text);
            let extra: int = if lower.len() > 0 && '0' <= lower[0] <= '9' {
                1
            } else {
                0
            };
            &&& name.len() == lower.len() + extra
            &&& extra == 1 ==> name[0] == '_'
            &&& forall|i: int|
                0 <= i < lower.len() ==> #[trigger] name[i + extra] == (if lower[i] == '{'
                    || lower[i] == '}' || lower[i] == ',' || lower[i] == '.' || lower[i] == ':'
                    || lower[i] == ';' {
                    '_'
                } else {
                    lower[i]
                })
        }),
{
    reveal_strlit("_");
}

/// one line is indented by putting the prefix before it, and several by doing so to one after another
pub proof fn law_texts_are_indented_one_after_another(
    line: Seq<char>,
    text: Seq<char>,
    prefix: Seq<char>,
)
    requires
        !line.contains('\n'),
    ensures
        indented(line + "\n"@, prefix) == prefix + line + "\n"@,
        text.len() > 0 ==> indented(line + "\n"@ + text, prefix) == prefix + line + "\n"@
            + indented(text, prefix),
{
    reveal_strlit("\n");
    lemma_prefixed_line(line, prefix);
    assert((line + "\n"@).last() == '\n');
    assert((line + "\n"@).drop_last() =~= line);
    if text.len() > 0 {
        let all = line + "\n"@ + text;
        assert(all.last() == text.last());
        if ends_line(text) {
            assert(all.drop_last() =~= line + "\n"@ + text.drop_last());
            lemma_prefixed_from_front(line, text.drop_last(), prefix);
            assert(indented(all, prefix) =~= prefix + line + "\n"@ + indented(text, prefix));
        } else {
            lemma_prefixed_from_front(line, text, prefix);
        }
    }
}

proof fn lemma_prefixed_line(line: Seq<char>, prefix: Seq<char>)
    requires
        !line.contains('\n'),
    ensures
        prefixed(line, prefix) == prefix + line,
{
    law_newlines_separate_lines(line, line);
    let parts = lines(line).map_values(|line: Seq<char>| prefix + line);
    assert(parts.len() == 1 && parts[0] == prefix + line);
}

proof fn lemma_prefixed_from_front(line: Seq<char>, text: Seq<char>, prefix: Seq<char>)
    requires
        !line.contains('\n'),
    ensures
        prefixed(line + "\n"@ + text, prefix) == prefix + line + "\n"@ + prefixed(text, prefix),
{
    law_newlines_separate_lines(line, text);
    law_lines_make_up_the_text(text);
    let add = |line: Seq<char>| prefix + line;
    let all = lines(line + "\n"@ + text);
    assert(all.map_values(add) =~= seq![prefix + line] + lines(text).map_values(add));
    law_parts_are_joined_in_order(seq![prefix + line], lines(text).map_values(add), "\n"@);
}

} // verus!
