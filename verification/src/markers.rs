//! Markers, as their files have them.

use crate::errors::{result_view, Failure, MapError};
use crate::outside::{capture, compiles, regex_compiles, replace_all};
use crate::patterns::{
    is_blank, is_white_space, leading_blanks, leading_indentation, past_white_space, svg_body,
    svg_end, unindented, unindented_line, CLIP_PATHS, CSS_PUNCTUATION, HIERARCHY, INDENTATION,
    LINE_START, SVG_BODY,
};
use crate::text::{
    find, law_joined_lines_come_apart, law_lines_make_up_the_text, lemma_find, lemma_find_is,
    lemma_joined_from_front, lines, occurs, opt_view,
};
use vstd::prelude::*;
use vstd::string::StringExecFns;

verus! {

/// what a marker's file holds of use: the lines inside its `<svg>` element, without the
/// indentation that the first of them has
pub open spec fn marker_detail(filename: Seq<char>, file: Option<Seq<char>>) -> Result<
    Seq<char>,
    MapError<Seq<char>>,
> {
    match file {
        None => Err(MapError::MarkerUnreadable { filename }),
        Some(text) => match svg_body(text, 0) {
            None => Err(MapError::MarkerMalformed { filename }),
            Some(body) => match leading_indentation(body) {
                None => Err(MapError::MarkerWithoutTag { filename }),
                Some(indentation) => Ok(unindented(body, indentation)),
            },
        },
    }
}

/// whether the indentation of the marker in this file is one that a pattern can be made of
pub open spec fn indentation_is_usable(file: Option<Seq<char>>) -> bool {
    file matches Some(text) ==> svg_body(text, 0) matches Some(body) ==> leading_indentation(
        body,
    ) matches Some(indentation) ==> regex_compiles(LINE_START@ + indentation)
}

proof fn lemma_leading_blanks(text: Seq<char>)
    ensures
        leading_blanks(text) <= text.len(),
        forall|i: int| 0 <= i < leading_blanks(text) ==> is_blank(#[trigger] text[i]),
    decreases text.len(),
{
    if text.len() > 0 && is_blank(text[0]) {
        lemma_leading_blanks(text.drop_first());
        assert forall|i: int| 0 <= i < leading_blanks(text) implies is_blank(#[trigger] text[i]) by {
            if i > 0 {
                assert(text[i] == text.drop_first()[i - 1]);
            }
        }
    }
}

/// the detail of a marker, from what its file was found to hold, if its indentation is one that a
/// pattern can be made of
pub fn try_load_SVG(marker_filename: &str, file: &Option<String>) -> (r: Option<
    Result<String, Failure>,
>)
    ensures
        r is Some <==> indentation_is_usable(opt_view(*file)),
        r is Some ==> result_view(r->0) == marker_detail(marker_filename@, opt_view(*file)),
{
    let text = match file {
        Some(text) => text,
        None => {
            return Some(
                Err(MapError::MarkerUnreadable { filename: marker_filename.to_owned() }),
            );
        },
    };
    // extract the content from between the <svg> and </svg>
    let body = match capture(SVG_BODY, text.as_str()) {
        Some(body) => body,
        None => {
            return Some(Err(MapError::MarkerMalformed { filename: marker_filename.to_owned() }));
        },
    };
    // extract the top-level indentation so that you can remove it
    proof {
        reveal_strlit("(?s)<svg[^>]*>\n(.*\n)\\s*</svg>");
        reveal_strlit("^([ \t]*)<");
        assert(SVG_BODY@[0] != INDENTATION@[0]);
    }
    let indentation = match capture(INDENTATION, body.as_str()) {
        Some(indentation) => indentation,
        None => {
            return Some(Err(MapError::MarkerWithoutTag { filename: marker_filename.to_owned() }));
        },
    };
    // remove that indentation and return
    let mut pattern = LINE_START.to_owned();
    pattern.append(indentation.as_str());
    if !compiles(pattern.as_str()) {
        return None;
    }
    proof {
        reveal_strlit("(?m)^");
        reveal_strlit("[{},.:;]");
        reveal_strlit("(?s)<clipPath[^>]*>.*</clipPath>\n?");
        reveal_strlit("(?m)^.*[^/]>\n");
        lemma_leading_blanks(body@);
        assert(pattern@.take(LINE_START@.len() as int) =~= LINE_START@);
        assert forall|i: int| LINE_START@.len() <= i < pattern@.len() implies is_blank(
            #[trigger] pattern@[i],
        ) by {
            assert(pattern@[i] == body@[i - LINE_START@.len()]);
        }
        assert(pattern@[0] != CSS_PUNCTUATION@[0]);
        assert(pattern@[2] != CLIP_PATHS@[2]);
        assert(pattern@.len() > 5 ==> pattern@[5] != HIERARCHY@[5]);
        assert(pattern@.skip(LINE_START@.len() as int) =~= indentation@);
    }
    Some(Ok(replace_all(pattern.as_str(), body.as_str(), "")))
}

/// the detail of a marker, from what its file was found to hold
pub fn load_SVG(marker_filename: &str, file: &Option<String>) -> (r: Result<String, Failure>)
    requires
        indentation_is_usable(opt_view(*file)),
    ensures
        result_view(r) == marker_detail(marker_filename@, opt_view(*file)),
{
    try_load_SVG(marker_filename, file).unwrap()
}

/// a marker starts with a tag, right at the beginning of its first line
pub proof fn law_markers_start_with_a_tag(filename: Seq<char>, file: Option<Seq<char>>)
    ensures
        marker_detail(filename, file) matches Ok(detail) ==> detail.len() > 0 && detail[0] == '<',
{
    if let Ok(detail) = marker_detail(filename, file) {
        let body = svg_body(file->0, 0)->0;
        let indentation = leading_indentation(body)->0;
        let n = leading_blanks(body) as int;
        lemma_leading_blanks(body);
        lemma_find(body, '\n', 0);
        let end = find(body, '\n', 0);
        assert(n < end) by {
            if end < body.len() && end <= n {
                assert(!is_blank(body[end]));
            }
        }
        let line = lines(body)[0];
        assert(line =~= body.take(end));
        assert(line.take(n) =~= indentation);
        assert(indentation.is_prefix_of(line));
        let parts = lines(body).map_values(|line: Seq<char>| unindented_line(line, indentation));
        assert(parts[0] =~= line.skip(n));
        if parts.len() >= 2 {
            lemma_joined_from_front(parts, "\n"@);
        }
        assert(detail[0] == parts[0][0]);
    }
}

/// the detail of a marker has the lines inside its `<svg>` element, one by one: each that starts with the
/// indentation of the first is without it, and each other as it is
pub proof fn law_markers_keep_their_lines(filename: Seq<char>, file: Seq<char>)
    ensures
        marker_detail(filename, Some(file)) matches Ok(detail) ==> {
            let body = svg_body(file, 0)->0;
            let indentation = leading_indentation(body)->0;
            &&& svg_body(file, 0) is Some && leading_indentation(body) is Some
            &&& lines(detail).len() == lines(body).len()
            &&& forall|i: int|
                0 <= i < lines(body).len() ==> {
                    let (line, kept) = (lines(body)[i], #[trigger] lines(detail)[i]);
                    if indentation.is_prefix_of(line) {
                        indentation + kept == line
                    } else {
                        kept == line
                    }
                }
        },
        marker_detail(filename, None) == Err::<Seq<char>, _>(
            MapError::MarkerUnreadable { filename },
        ),
        svg_body(file, 0) is None ==> marker_detail(filename, Some(file)) == Err::<Seq<char>, _>(
            MapError::MarkerMalformed { filename },
        ),
        svg_body(file, 0) is Some && leading_indentation(svg_body(file, 0)->0) is None
            ==> marker_detail(filename, Some(file)) == Err::<Seq<char>, _>(
            MapError::MarkerWithoutTag { filename },
        ),
{
    if let Ok(detail) = marker_detail(filename, Some(file)) {
        let body = svg_body(file, 0)->0;
        let indentation = leading_indentation(body)->0;
        let parts = lines(body).map_values(|line: Seq<char>| unindented_line(line, indentation));
        law_lines_make_up_the_text(body);
        assert forall|i: int| 0 <= i < parts.len() implies !(#[trigger] parts[i]).contains('\n') by {
            let line = lines(body)[i];
            assert(!line.contains('\n'));
            assert forall|j: int| 0 <= j < parts[i].len() implies parts[i][j] != '\n' by {
                if indentation.is_prefix_of(line) {
                    assert(line.contains(line[j + indentation.len()]));
                } else {
                    assert(line.contains(line[j]));
                }
            }
        }
        law_joined_lines_come_apart(parts);
        assert forall|i: int| 0 <= i < lines(body).len() implies {
            let (line, kept) = (lines(body)[i], #[trigger] lines(detail)[i]);
            if indentation.is_prefix_of(line) {
                indentation + kept == line
            } else {
                kept == line
            }
        } by {
            let line = lines(body)[i];
            assert(lines(detail)[i] == parts[i]);
            if indentation.is_prefix_of(line) {
                assert(indentation + parts[i] =~= line);
            }
        }
    }
}

/// the indentation of a text is all of the spaces and tabs before its first tag, and there is none where
/// something else comes first
pub proof fn law_indentation_is_what_precedes_the_first_tag(
    blanks: Seq<char>,
    c: char,
    rest: Seq<char>,
)
    requires
        forall|i: int| 0 <= i < blanks.len() ==> #[trigger] blanks[i] == ' ' || blanks[i] == '\t',
        c != ' ' && c != '\t',
    ensures
        leading_indentation(blanks + seq![c] + rest) == if c == '<' {
            Some(blanks)
        } else {
            None
        },
        leading_indentation(blanks) is None,
{
    lemma_blanks(blanks, c, rest);
    assert((blanks + seq![c] + rest).take(blanks.len() as int) =~= blanks);
}

proof fn lemma_blanks(blanks: Seq<char>, c: char, rest: Seq<char>)
    requires
        forall|i: int| 0 <= i < blanks.len() ==> #[trigger] blanks[i] == ' ' || blanks[i] == '\t',
        c != ' ' && c != '\t',
    ensures
        leading_blanks(blanks + seq![c] + rest) == blanks.len(),
        leading_blanks(blanks) == blanks.len(),
    decreases blanks.len(),
{
    let text = blanks + seq![c] + rest;
    if blanks.len() > 0 {
        lemma_blanks(blanks.drop_first(), c, rest);
        assert(text.drop_first() =~= blanks.drop_first() + seq![c] + rest);
        assert(text[0] == blanks[0]);
    } else {
        assert(text[0] == c);
    }
}

/// what a marker's file holds of use starts on the line after the tag that opens its `<svg>` element and
/// ends before the line of the one that closes it
pub proof fn law_markers_are_inside_of_their_svg(
    before: Seq<char>,
    head: Seq<char>,
    body: Seq<char>,
    blanks: Seq<char>,
    after: Seq<char>,
)
    requires
        !before.contains('<'),
        !head.contains('>'),
        forall|i: int| 0 <= i < blanks.len() ==> #[trigger] blanks[i] == ' ' || blanks[i] == '\t',
        !after.contains('<'),
    ensures
        svg_body(
            before + "<svg"@ + head + ">\n"@ + (body + "\n"@) + blanks + "</svg>"@ + after,
            0,
        ) == Some(body + "\n"@),
{
    reveal_strlit("<svg");
    reveal_strlit(">\n");
    reveal_strlit("\n");
    reveal_strlit("</svg>");
    let text = before + "<svg"@ + head + ">\n"@ + (body + "\n"@) + blanks + "</svg>"@ + after;
    let open = before.len() as int;
    let start = open + 4 + head.len();
    let end = start + 2 + body.len() + 1;
    let close = end + blanks.len();
    assert(text.len() == close + 6 + after.len());
    assert forall|i: int| 0 <= i < open implies !#[trigger] occurs(text, "<svg"@, i) by {
        assert(text[i] == before[i]);
        assert(before.contains(before[i]));
        if occurs(text, "<svg"@, i) {
            assert(text.subrange(i, i + 4)[0] == "<svg"@[0]);
        }
    }
    lemma_no_svg_before(text, 0, open);
    assert(text.subrange(open, open + 4) =~= "<svg"@);
    assert forall|i: int| open + 4 <= i < start implies #[trigger] text[i] != '>' by {
        assert(text[i] == head[i - open - 4]);
        assert(head.contains(head[i - open - 4]));
    }
    assert(text[start] == '>');
    assert(text[start + 1] == '\n');
    lemma_find_is(text, '>', open + 4, start);
    assert(text[end - 1] == '\n');
    assert forall|i: int| end <= i < close implies #[trigger] text[i] == ' ' || text[i] == '\t' by {
        assert(text[i] == blanks[i - end]);
    }
    assert(text[close] == '<');
    lemma_past_blanks(text, end, close);
    assert(text.subrange(close, close + 6) =~= "</svg>"@);
    assert forall|i: int| close < i implies !#[trigger] occurs(text, "</svg>"@, i) by {
        if occurs(text, "</svg>"@, i) {
            assert(text.subrange(i, i + 6)[0] == "</svg>"@[0]);
            assert(text[i] == '<');
            if i < close + 6 {
                assert(text[i] == "</svg>"@[i - close]);
            } else {
                assert(text[i] == after[i - close - 6]);
                assert(after.contains(after[i - close - 6]));
            }
        }
    }
    lemma_svg_end_is(text, start + 2, text.len() as int, end, close);
    assert(text.subrange(start + 2, end) =~= body + "\n"@);
}

proof fn lemma_no_svg_before(text: Seq<char>, from: int, to: int)
    requires
        0 <= from <= to < text.len(),
        forall|i: int| from <= i < to ==> !#[trigger] occurs(text, "<svg"@, i),
    ensures
        svg_body(text, from) == svg_body(text, to),
    decreases to - from,
{
    if from < to {
        assert(!occurs(text, "<svg"@, from));
        lemma_no_svg_before(text, from + 1, to);
    }
}

proof fn lemma_past_blanks(text: Seq<char>, from: int, to: int)
    requires
        0 <= from <= to < text.len(),
        forall|i: int| from <= i < to ==> #[trigger] text[i] == ' ' || text[i] == '\t',
        text[to] == '<',
    ensures
        past_white_space(text, from) == to,
    decreases to - from,
{
    if from < to {
        lemma_past_blanks(text, from + 1, to);
    }
}

/// the closing tag comes at `close`, and there is no newline between it and `end`
proof fn lemma_svg_end_is(text: Seq<char>, from: int, to: int, end: int, close: int)
    requires
        0 <= from < end <= to <= text.len(),
        end <= close < text.len(),
        text[end - 1] == '\n',
        forall|i: int| end <= i < close ==> #[trigger] text[i] == ' ' || text[i] == '\t',
        text[close] == '<',
        past_white_space(text, end) == close,
        occurs(text, "</svg>"@, close),
        forall|i: int| close < i ==> !#[trigger] occurs(text, "</svg>"@, i),
    ensures
        svg_end(text, from, to) == Some(end),
    decreases to - end,
{
    if end < to {
        if to <= close {
            assert(text[to - 1] == ' ' || text[to - 1] == '\t');
        } else if to - 1 == close {
            assert(text[to - 1] == '<');
        } else {
            lemma_white_space_is_passed(text, to);
            assert(!occurs(text, "</svg>"@, past_white_space(text, to)));
        }
        lemma_svg_end_is(text, from, to - 1, end, close);
    }
}

proof fn lemma_white_space_is_passed(text: Seq<char>, from: int)
    ensures
        past_white_space(text, from) >= from,
    decreases text.len() - from,
{
    if 0 <= from < text.len() && is_white_space(text[from]) {
        lemma_white_space_is_passed(text, from + 1);
    }
}

} // verus!
