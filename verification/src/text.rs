//! Text as a sequence of characters: places in it, lines of it, and numbers written in it.

use vstd::prelude::*;
use vstd::string::{StringExecFns, StringSliceAdditionalSpecFns};
use vstd::utf8::{
    encode_scalar, encode_utf8, encode_utf8_decode_utf8, encode_utf8_first_scalar,
    encode_utf8_valid_utf8, is_char_boundary, pop_first_scalar,
};

verus! {

/// the first place at or after `from` where the character stands, or else the end of the text
pub open spec fn find(text: Seq<char>, c: char, from: int) -> int
    decreases text.len() - from,
{
    if from < 0 || from >= text.len() {
        text.len() as int
    } else if text[from] == c {
        from
    } else {
        find(text, c, from + 1)
    }
}

/// whether the word stands at this place in the text
pub open spec fn occurs(text: Seq<char>, word: Seq<char>, at: int) -> bool {
    &&& 0 <= at
    &&& at + word.len() <= text.len()
    &&& text.subrange(at, at + word.len()) == word
}

/// the first place at or after `from` where the word stands, if any
pub open spec fn first_occurrence(text: Seq<char>, word: Seq<char>, from: int) -> Option<int>
    decreases text.len() - from + 1,
{
    if from < 0 || from > text.len() {
        None
    } else if occurs(text, word, from) {
        Some(from)
    } else {
        first_occurrence(text, word, from + 1)
    }
}

/// the last place at or after `from` where the word stands, if any
pub open spec fn last_occurrence(text: Seq<char>, word: Seq<char>, from: int) -> Option<int>
    decreases text.len() - from + 1,
{
    if from < 0 || from > text.len() {
        None
    } else {
        match last_occurrence(text, word, from + 1) {
            Some(at) => Some(at),
            None => if occurs(text, word, from) {
                Some(from)
            } else {
                None
            },
        }
    }
}

/// the sections of the text between its newlines
pub open spec fn lines(text: Seq<char>) -> Seq<Seq<char>>
    decreases text.len(),
{
    let end = find(text, '\n', 0);
    if end < text.len() && 0 <= end {
        seq![text.take(end)] + lines(text.skip(end + 1))
    } else {
        seq![text]
    }
}

/// the parts one after another, with the separator between each two
pub open spec fn joined(parts: Seq<Seq<char>>, separator: Seq<char>) -> Seq<char>
    decreases parts.len(),
{
    if parts.len() == 0 {
        Seq::empty()
    } else if parts.len() == 1 {
        parts[0]
    } else {
        joined(parts.drop_last(), separator) + separator + parts.last()
    }
}

/// what the strings hold
pub open spec fn views(strings: Seq<String>) -> Seq<Seq<char>> {
    strings.map_values(|s: String| s@)
}

/// what the string holds, if there is one
pub open spec fn opt_view(string: Option<String>) -> Option<Seq<char>> {
    match string {
        Some(s) => Some(s@),
        None => None,
    }
}

/// the digit as a character
pub open spec fn digit(d: nat) -> char {
    if d == 0 {
        '0'
    } else if d == 1 {
        '1'
    } else if d == 2 {
        '2'
    } else if d == 3 {
        '3'
    } else if d == 4 {
        '4'
    } else if d == 5 {
        '5'
    } else if d == 6 {
        '6'
    } else if d == 7 {
        '7'
    } else if d == 8 {
        '8'
    } else {
        '9'
    }
}

/// the number in decimal digits, without leading zeros
pub open spec fn decimal(n: nat) -> Seq<char>
    decreases n,
{
    if n < 10 {
        seq![digit(n)]
    } else {
        decimal(n / 10).push(digit(n % 10))
    }
}

pub proof fn lemma_joined_from_front(parts: Seq<Seq<char>>, separator: Seq<char>)
    requires
        parts.len() >= 2,
    ensures
        joined(parts, separator) == parts[0] + separator + joined(parts.drop_first(), separator),
    decreases parts.len(),
{
    if parts.len() == 2 {
        assert(joined(parts.drop_last(), separator) == parts[0]);
        assert(joined(parts.drop_first(), separator) == parts[1]);
        assert(joined(parts, separator) =~= parts[0] + separator + joined(
            parts.drop_first(),
            separator,
        ));
    } else {
        lemma_joined_from_front(parts.drop_last(), separator);
        assert(parts.drop_last().drop_first() =~= parts.drop_first().drop_last());
        assert(joined(parts, separator) =~= parts[0] + separator + joined(
            parts.drop_first(),
            separator,
        ));
    }
}

/// nothing is lost when a text is broken up at its newlines: joined again, its lines are the text
pub proof fn law_lines_make_up_the_text(text: Seq<char>)
    ensures
        joined(lines(text), "\n"@) == text,
        lines(text).len() >= 1,
        forall|i: int| 0 <= i < lines(text).len() ==> !(#[trigger] lines(text)[i]).contains('\n'),
    decreases text.len(),
{
    reveal_strlit("\n");
    lemma_find(text, '\n', 0);
    let end = find(text, '\n', 0);
    let parts = lines(text);
    if end < text.len() {
        let rest = text.skip(end + 1);
        law_lines_make_up_the_text(rest);
        assert(parts.drop_first() =~= lines(rest));
        lemma_joined_from_front(parts, "\n"@);
        assert(joined(parts, "\n"@) =~= text);
        assert forall|i: int| 0 <= i < parts.len() implies !(#[trigger] parts[i]).contains('\n') by {
            if i > 0 {
                assert(parts[i] == lines(rest)[i - 1]);
            }
        }
    } else {
        assert(parts =~= seq![text]);
    }
}

/// lines that have no newlines in them come back when the text they make up is broken up again
pub proof fn law_joined_lines_come_apart(parts: Seq<Seq<char>>)
    requires
        parts.len() >= 1,
        forall|i: int| 0 <= i < parts.len() ==> !(#[trigger] parts[i]).contains('\n'),
    ensures
        lines(joined(parts, "\n"@)) == parts,
    decreases parts.len(),
{
    reveal_strlit("\n");
    let text = joined(parts, "\n"@);
    let first = parts[0];
    assert forall|i: int| 0 <= i < first.len() implies first[i] != '\n' by {
        assert(first.contains(first[i]));
    }
    if parts.len() == 1 {
        lemma_find_is(text, '\n', 0, text.len() as int);
        assert(lines(text) =~= parts);
    } else {
        lemma_joined_from_front(parts, "\n"@);
        let rest = joined(parts.drop_first(), "\n"@);
        assert forall|i: int| 0 <= i < parts.drop_first().len() implies !(
        #[trigger] parts.drop_first()[i]).contains('\n') by {
            assert(parts.drop_first()[i] == parts[i + 1]);
        }
        law_joined_lines_come_apart(parts.drop_first());
        assert(text[first.len() as int] == '\n');
        lemma_find_is(text, '\n', 0, first.len() as int);
        assert(text.take(first.len() as int) =~= first);
        assert(text.skip(first.len() as int + 1) =~= rest);
        assert(lines(text) =~= parts);
    }
}

/// how many bytes the first `place` characters of the text take up
pub open spec fn byte_offset(text: Seq<char>, place: int) -> int {
    encode_utf8(text.take(place)).len() as int
}

pub proof fn lemma_find(text: Seq<char>, c: char, from: int)
    requires
        0 <= from <= text.len(),
    ensures
        from <= find(text, c, from) <= text.len(),
        find(text, c, from) < text.len() ==> text[find(text, c, from)] == c,
        forall|i: int| from <= i < find(text, c, from) ==> text[i] != c,
    decreases text.len() - from,
{
    if from < text.len() && text[from] != c {
        lemma_find(text, c, from + 1);
    }
}

pub proof fn lemma_find_is(text: Seq<char>, c: char, from: int, at: int)
    requires
        0 <= from <= at <= text.len(),
        forall|i: int| from <= i < at ==> text[i] != c,
        at < text.len() ==> text[at] == c,
    ensures
        find(text, c, from) == at,
    decreases at - from,
{
    if from < at {
        lemma_find_is(text, c, from + 1, at);
    }
}

/// where a word is found, there it is
pub proof fn lemma_occurrence_fits(text: Seq<char>, word: Seq<char>, from: int)
    ensures
        first_occurrence(text, word, from) matches Some(at) ==> from <= at && occurs(
            text,
            word,
            at,
        ),
    decreases text.len() - from + 1,
{
    if 0 <= from <= text.len() && !occurs(text, word, from) {
        lemma_occurrence_fits(text, word, from + 1);
    }
}

pub proof fn lemma_encode_concat(a: Seq<char>, b: Seq<char>)
    ensures
        encode_utf8(a + b) == encode_utf8(a) + encode_utf8(b),
    decreases a.len(),
{
    if a.len() == 0 {
        assert(a + b =~= b);
        assert(encode_utf8(a) + encode_utf8(b) =~= encode_utf8(b));
    } else {
        lemma_encode_concat(a.drop_first(), b);
        assert((a + b).drop_first() =~= a.drop_first() + b);
        assert(encode_utf8(a + b) =~= encode_utf8(a) + encode_utf8(b));
    }
}

pub proof fn lemma_offset_is_boundary(text: Seq<char>, place: int)
    requires
        0 <= place <= text.len(),
    ensures
        0 <= byte_offset(text, place) <= encode_utf8(text).len(),
        is_char_boundary(encode_utf8(text), byte_offset(text, place)),
    decreases place,
{
    broadcast use encode_utf8_valid_utf8;

    assert(text =~= text.take(place) + text.skip(place));
    lemma_encode_concat(text.take(place), text.skip(place));
    if place > 0 {
        let bytes = encode_utf8(text);
        let rest = text.drop_first();
        encode_utf8_first_scalar(text);
        assert(pop_first_scalar(bytes) =~= encode_utf8(rest));
        assert(text.take(place).drop_first() =~= rest.take(place - 1));
        lemma_offset_is_boundary(rest, place - 1);
        assert(byte_offset(text, place) == encode_scalar(text[0] as u32).len() + byte_offset(
            rest,
            place - 1,
        ));
    } else {
        assert(text.take(0) =~= Seq::<char>::empty());
    }
}

/// cut the text in two at the byte where the character at `place` begins
pub(crate) fn cut(text: &str, at: usize, Ghost(place): Ghost<int>) -> (halves: (&str, &str))
    requires
        0 <= place <= text@.len(),
        at == byte_offset(text@, place),
    ensures
        halves.0@ == text@.take(place),
        halves.1@ == text@.skip(place),
{
    proof {
        lemma_offset_is_boundary(text@, place);
    }
    let halves = text.split_at(at);
    proof {
        broadcast use encode_utf8_decode_utf8;

        let first = text@.take(place);
        let second = text@.skip(place);
        assert(text@ =~= first + second);
        lemma_encode_concat(first, second);
        assert(halves.0.spec_bytes() =~= encode_utf8(first));
        assert(halves.1.spec_bytes() =~= encode_utf8(second));
        assert(vstd::utf8::decode_utf8(encode_utf8(halves.0@)) == halves.0@);
        assert(vstd::utf8::decode_utf8(encode_utf8(halves.1@)) == halves.1@);
        assert(vstd::utf8::decode_utf8(encode_utf8(first)) == first);
        assert(vstd::utf8::decode_utf8(encode_utf8(second)) == second);
    }
    halves
}

fn digit_text(d: u32) -> (s: &'static str)
    requires
        d < 10,
    ensures
        s@ == seq![digit(d as nat)],
{
    proof {
        reveal_strlit("0");
        reveal_strlit("1");
        reveal_strlit("2");
        reveal_strlit("3");
        reveal_strlit("4");
        reveal_strlit("5");
        reveal_strlit("6");
        reveal_strlit("7");
        reveal_strlit("8");
        reveal_strlit("9");
    }
    let s = match d {
        0 => "0",
        1 => "1",
        2 => "2",
        3 => "3",
        4 => "4",
        5 => "5",
        6 => "6",
        7 => "7",
        8 => "8",
        _ => "9",
    };
    assert(s@ =~= seq![digit(d as nat)]);
    s
}

/// the number in decimal digits, without leading zeros
pub fn to_decimal(n: u32) -> (s: String)
    ensures
        s@ == decimal(n as nat),
    decreases n,
{
    let mut s = if n < 10 {
        String::new()
    } else {
        to_decimal(n / 10)
    };
    s.append(digit_text(n % 10));
    assert(s@ =~= decimal(n as nat));
    s
}

/// the parts one after another, with the separator between each two
pub fn join(parts: &Vec<String>, separator: &str) -> (s: String)
    ensures
        s@ == joined(views(parts@), separator@),
{
    let mut s = String::new();
    for i in 0..parts.len()
        invariant
            s@ == joined(views(parts@).take(i as int), separator@),
    {
        if i > 0 {
            s.append(separator);
        }
        s.append(parts[i].as_str());
        proof {
            let done = views(parts@).take(i + 1);
            assert(done.drop_last() =~= views(parts@).take(i as int));
            assert(s@ =~= joined(done, separator@));
        }
    }
    assert(views(parts@).take(parts@.len() as int) =~= views(parts@));
    s
}

/// two lists of parts, joined one after the other
proof fn lemma_joined_parts(first: Seq<Seq<char>>, second: Seq<Seq<char>>, separator: Seq<char>)
    requires
        first.len() >= 1,
        second.len() >= 1,
    ensures
        joined(first + second, separator) == joined(first, separator) + separator + joined(
            second,
            separator,
        ),
    decreases second.len(),
{
    let all = first + second;
    if second.len() == 1 {
        assert(all.drop_last() =~= first);
        assert(joined(all, separator) =~= joined(first, separator) + separator + joined(
            second,
            separator,
        ));
    } else {
        lemma_joined_parts(first, second.drop_last(), separator);
        assert(all.drop_last() =~= first + second.drop_last());
        assert(joined(all, separator) =~= joined(first, separator) + separator + joined(
            second,
            separator,
        ));
    }
}

/// the lines before a newline, and then those after it
pub proof fn law_newlines_separate_lines(before: Seq<char>, after: Seq<char>)
    ensures
        lines(before + "\n"@ + after) == lines(before) + lines(after),
        !before.contains('\n') ==> lines(before) == seq![before],
{
    law_lines_make_up_the_text(before);
    law_lines_make_up_the_text(after);
    let all = lines(before) + lines(after);
    lemma_joined_parts(lines(before), lines(after), "\n"@);
    assert forall|i: int| 0 <= i < all.len() implies !(#[trigger] all[i]).contains('\n') by {
        if i < lines(before).len() {
            assert(all[i] == lines(before)[i]);
        } else {
            assert(all[i] == lines(after)[i - lines(before).len()]);
        }
    }
    law_joined_lines_come_apart(all);
    if !before.contains('\n') {
        lemma_find(before, '\n', 0);
        assert(find(before, '\n', 0) >= before.len());
        assert(lines(before) =~= seq![before]);
    }
}

/// parts are joined one after another, with the separator between each two
pub proof fn law_parts_are_joined_in_order(
    first: Seq<Seq<char>>,
    second: Seq<Seq<char>>,
    separator: Seq<char>,
)
    requires
        first.len() >= 1,
        second.len() >= 1,
    ensures
        joined(first + second, separator) == joined(first, separator) + separator + joined(
            second,
            separator,
        ),
        first.len() == 1 ==> joined(first, separator) == first[0],
{
    lemma_joined_parts(first, second, separator);
}

/// the number that a row of decimal digits stands for
pub open spec fn read_decimal(digits: Seq<char>) -> int
    decreases digits.len(),
{
    if digits.len() == 0 {
        0
    } else {
        10 * read_decimal(digits.drop_last()) + (digits.last() as int - '0' as int)
    }
}

/// the digits of a number stand for the number, and there are no more of them than it takes
pub proof fn law_digits_stand_for_the_number(n: nat)
    ensures
        read_decimal(decimal(n)) == n,
        forall|i: int| 0 <= i < decimal(n).len() ==> '0' <= #[trigger] decimal(n)[i] <= '9',
        decimal(n).len() >= 1,
        n > 0 ==> decimal(n)[0] != '0',
    decreases n,
{
    if n >= 10 {
        law_digits_stand_for_the_number(n / 10);
        assert(decimal(n).drop_last() =~= decimal(n / 10));
    } else {
        assert(decimal(n).drop_last() =~= Seq::empty());
        assert(read_decimal(decimal(n).drop_last()) == 0);
    }
}

} // verus!
