//! Giving attributes to elements.

use crate::errors::{result_view, Failure, MapError};
use crate::outside::capture_each;
use crate::patterns::{
    attribute_at, attribute_lists, attributes, is_letter, is_line_start, is_name_char, is_quote,
    is_top_level_tag, is_white_space, past_letters, past_name, past_white_space, spans, Attribute,
    ATTRIBUTE, TOP_LEVEL_TAG,
};
use crate::text::{byte_offset, cut, find, lemma_encode_concat, lemma_find, lemma_find_is, occurs};
use vstd::prelude::*;
use vstd::string::StringExecFns;
use vstd::utf8::{encode_scalar, encode_utf8};

verus! {

/// where the value of the first of the attributes with this name ends, if there is one
pub open spec fn end_of_first(text: Seq<char>, among: Seq<Attribute>, key: Seq<char>) -> Option<int>
    decreases among.len(),
{
    if among.len() == 0 {
        None
    } else if text.subrange(among[0].name.0, among[0].name.1) == key {
        Some(among[0].value.1)
    } else {
        end_of_first(text, among.drop_first(), key)
    }
}

/// the attributes of a tag
pub open spec fn list_text(element: Seq<char>, list: (int, int)) -> Seq<char> {
    element.subrange(list.0, list.1)
}

/// where the value that a key already has among these attributes ends, if it has one
pub open spec fn value_end(element: Seq<char>, key: Seq<char>, list: (int, int)) -> Option<int> {
    let text = list_text(element, list);
    match end_of_first(text, attributes(text, 0), key) {
        Some(end) => Some(list.0 + end),
        None => None,
    }
}

/// where among these attributes the new text goes: at the end of the value that the key already
/// has, or else before all of them
pub open spec fn infix_place(element: Seq<char>, key: Seq<char>, list: (int, int)) -> int {
    match value_end(element, key, list) {
        Some(end) => end,
        None => list.0,
    }
}

/// what is put among these attributes: the value, to go with the one that the key already has, or
/// else the key with the value
pub open spec fn infix(
    element: Seq<char>,
    key: Seq<char>,
    value: Seq<char>,
    list: (int, int),
) -> Seq<char> {
    if value_end(element, key, list) is Some {
        " "@ + value
    } else {
        " "@ + key + "=\""@ + value + "\""@
    }
}

/// what the element is from this place on, with the attribute inserted in each of the lists
pub open spec fn spliced(
    element: Seq<char>,
    key: Seq<char>,
    value: Seq<char>,
    lists: Seq<(int, int)>,
    from: int,
) -> Seq<char>
    decreases lists.len(),
{
    if lists.len() == 0 {
        element.skip(from)
    } else {
        let place = infix_place(element, key, lists[0]);
        element.subrange(from, place) + infix(element, key, value, lists[0]) + spliced(
            element,
            key,
            value,
            lists.drop_first(),
            place,
        )
    }
}

/// the element with the attribute inserted in every top-level tag, of which there must be one
pub open spec fn with_attribute(element: Seq<char>, key: Seq<char>, value: Seq<char>) -> Result<
    Seq<char>,
    MapError<Seq<char>>,
> {
    let lists = attribute_lists(element, 0);
    if lists.len() == 0 {
        Err(MapError::NoTopLevelTag { element })
    } else {
        Ok(spliced(element, key, value, lists, 0))
    }
}

proof fn lemma_past_letters(text: Seq<char>, from: int)
    requires
        0 <= from <= text.len(),
    ensures
        from <= past_letters(text, from) <= text.len(),
        forall|i: int| from <= i < past_letters(text, from) ==> is_letter(text[i]),
    decreases text.len() - from,
{
    if from < text.len() && is_letter(text[from]) {
        lemma_past_letters(text, from + 1);
    }
}

proof fn lemma_attribute_lists(text: Seq<char>, from: int)
    requires
        0 <= from,
    ensures
        forall|i: int|
            0 <= i < attribute_lists(text, from).len() ==> {
                let list = #[trigger] attribute_lists(text, from)[i];
                from <= list.0 <= list.1 < text.len()
            },
        forall|i: int, j: int|
            0 <= i < j < attribute_lists(text, from).len() ==> (#[trigger] attribute_lists(
                text,
                from,
            )[i]).1 <= (#[trigger] attribute_lists(text, from)[j]).0,
    decreases text.len() - from,
{
    if from < text.len() {
        if is_top_level_tag(text, from) {
            lemma_find(text, '>', from + 1);
            lemma_past_letters(text, from + 1);
            let end = find(text, '>', from + 1);
            if end < past_letters(text, from + 1) {
                assert(is_letter(text[end]));
            }
            lemma_attribute_lists(text, end + 1);
            let rest = attribute_lists(text, end + 1);
            let all = attribute_lists(text, from);
            assert(all =~= seq![(past_letters(text, from + 1), end)] + rest);
            assert forall|i: int| 0 <= i < all.len() implies {
                let list = #[trigger] all[i];
                from <= list.0 <= list.1 < text.len()
            } by {
                if i > 0 {
                    assert(all[i] == rest[i - 1]);
                }
            }
            assert forall|i: int, j: int| 0 <= i < j < all.len() implies (#[trigger] all[i]).1 <= (
            #[trigger] all[j]).0 by {
                assert(all[j] == rest[j - 1]);
                if i > 0 {
                    assert(all[i] == rest[i - 1]);
                }
            }
        } else {
            lemma_attribute_lists(text, from + 1);
            assert(attribute_lists(text, from) == attribute_lists(text, from + 1));
        }
    }
}

proof fn lemma_offset_within(text: Seq<char>, a: int, b: int)
    requires
        0 <= a <= b <= text.len(),
    ensures
        byte_offset(text.skip(a), b - a) == byte_offset(text, b) - byte_offset(text, a),
        byte_offset(text.take(b), a) == byte_offset(text, a),
        byte_offset(text, a) <= byte_offset(text, b) <= encode_utf8(text).len(),
        encode_utf8(text.take(b)).len() == byte_offset(text, b),
{
    assert(text.skip(a).take(b - a) =~= text.subrange(a, b));
    assert(text.take(b) =~= text.take(a) + text.subrange(a, b));
    lemma_encode_concat(text.take(a), text.subrange(a, b));
    assert(text.take(b).take(a) =~= text.take(a));
    assert(text =~= text.take(b) + text.skip(b));
    lemma_encode_concat(text.take(b), text.skip(b));
}

proof fn lemma_offset_of_quote(text: Seq<char>, place: int)
    requires
        0 <= place < text.len(),
        is_quote(text[place]),
    ensures
        byte_offset(text, place + 1) == byte_offset(text, place) + 1,
{
    let quote = seq![text[place]];
    assert(text.take(place + 1) =~= text.take(place) + quote);
    lemma_encode_concat(text.take(place), quote);
    assert(quote.drop_first() =~= Seq::empty());
    reveal_with_fuel(encode_utf8, 2);
    assert(encode_utf8(quote) =~= encode_scalar(text[place] as u32));
}

proof fn lemma_past_white_space(text: Seq<char>, from: int)
    requires
        0 <= from <= text.len(),
    ensures
        from <= past_white_space(text, from) <= text.len(),
        forall|i: int| from <= i < past_white_space(text, from) ==> is_white_space(#[trigger] text[i]),
        past_white_space(text, from) < text.len() ==> !is_white_space(
            text[past_white_space(text, from)],
        ),
    decreases text.len() - from,
{
    if from < text.len() && is_white_space(text[from]) {
        lemma_past_white_space(text, from + 1);
    }
}

proof fn lemma_past_white_space_is(text: Seq<char>, from: int, to: int)
    requires
        0 <= from <= to <= text.len(),
        forall|i: int| from <= i < to ==> is_white_space(#[trigger] text[i]),
        to < text.len() ==> !is_white_space(text[to]),
    ensures
        past_white_space(text, from) == to,
    decreases to - from,
{
    if from < to {
        lemma_past_white_space_is(text, from + 1, to);
    }
}

proof fn lemma_past_name(text: Seq<char>, from: int)
    requires
        0 <= from <= text.len(),
    ensures
        from <= past_name(text, from) <= text.len(),
        forall|i: int| from <= i < past_name(text, from) ==> is_name_char(#[trigger] text[i]),
        past_name(text, from) < text.len() ==> !is_name_char(text[past_name(text, from)]),
    decreases text.len() - from,
{
    if from < text.len() && is_name_char(text[from]) {
        lemma_past_name(text, from + 1);
    }
}

proof fn lemma_past_name_is(text: Seq<char>, from: int, to: int)
    requires
        0 <= from <= to <= text.len(),
        forall|i: int| from <= i < to ==> is_name_char(#[trigger] text[i]),
        to < text.len() ==> !is_name_char(text[to]),
    ensures
        past_name(text, from) == to,
    decreases to - from,
{
    if from < to {
        lemma_past_name_is(text, from + 1, to);
    }
}

/// where the parts of an attribute are
proof fn lemma_attribute_at(text: Seq<char>, at: int)
    ensures
        attribute_at(text, at) matches Some(a) ==> {
            let equals = past_white_space(text, a.name.1);
            let open = past_white_space(text, equals + 1);
            &&& 0 <= at == a.name.0 < a.name.1 <= equals < open < a.value.0 <= a.value.1 < text.len()
            &&& a.name.1 == past_name(text, at)
            &&& a.value.0 == open + 1
            &&& is_quote(text[a.value.1])
            &&& text[a.value.1] == text[open]
            &&& text[equals] == '='
        },
{
    if attribute_at(text, at) is Some {
        lemma_past_name(text, at);
        let name_end = past_name(text, at);
        lemma_past_white_space(text, name_end);
        let equals = past_white_space(text, name_end);
        lemma_past_white_space(text, equals + 1);
        let open = past_white_space(text, equals + 1);
        lemma_find(text, text[open], open + 1);
    }
}

/// where the attributes are
proof fn lemma_attributes(text: Seq<char>, from: int)
    requires
        0 <= from,
    ensures
        forall|i: int|
            0 <= i < attributes(text, from).len() ==> {
                let a = #[trigger] attributes(text, from)[i];
                &&& from <= a.name.0 < a.name.1 < a.value.0 <= a.value.1 < text.len()
                &&& is_quote(text[a.value.1])
            },
    decreases text.len() - from,
{
    if from < text.len() {
        lemma_attribute_at(text, from);
        match attribute_at(text, from) {
            Some(attribute) => {
                let next = attribute.value.1 + 1;
                lemma_attributes(text, next);
                let rest = attributes(text, next);
                let all = attributes(text, from);
                assert(all =~= seq![attribute] + rest);
                assert forall|i: int| 0 <= i < all.len() implies {
                    let a = #[trigger] all[i];
                    &&& from <= a.name.0 < a.name.1 < a.value.0 <= a.value.1 < text.len()
                    &&& is_quote(text[a.value.1])
                } by {
                    if i > 0 {
                        assert(all[i] == rest[i - 1]);
                    }
                }
            },
            None => {
                lemma_attributes(text, from + 1);
                assert(attributes(text, from) == attributes(text, from + 1));
            },
        }
    }
}

/// find out where the value of the first attribute with this name ends, as a byte of the text
fn find_value(text: &str, key: &str) -> (end: Option<usize>)
    ensures
        match end_of_first(text@, attributes(text@, 0), key@) {
            Some(place) => {
                &&& 0 <= place < text@.len()
                &&& end is Some
                &&& end->0 == byte_offset(text@, place)
            },
            None => end is None,
        },
{
    let ghost all = attributes(text@, 0);
    proof {
        reveal_strlit("(?m)^<[a-zA-Z]+([^>]*)>");
        reveal_strlit("([^\\s=\"']+)\\s*=\\s*(\"[^\"]*\"|'[^']*')");
        assert(ATTRIBUTE@[1] != TOP_LEVEL_TAG@[1]);
        lemma_attributes(text@, 0);
    }
    let wanted = key.to_owned();
    let names = capture_each(ATTRIBUTE, text, 1);
    let values = capture_each(ATTRIBUTE, text, 2);
    let ghost name_spans = spans(ATTRIBUTE@, text@, 1);
    let ghost value_spans = spans(ATTRIBUTE@, text@, 2);
    assert(all.skip(0) =~= all);
    for i in 0..names.len()
        invariant
            all == attributes(text@, 0),
            names@.len() == all.len(),
            values@.len() == all.len(),
            wanted@ == key@,
            forall|j: int|
                0 <= j < all.len() ==> {
                    &&& 0 <= (#[trigger] all[j]).name.0 < all[j].name.1 < all[j].value.0
                        <= all[j].value.1 < text@.len()
                    &&& is_quote(text@[all[j].value.1])
                },
            name_spans.len() == all.len(),
            value_spans.len() == all.len(),
            forall|j: int| 0 <= j < all.len() ==> #[trigger] name_spans[j] == all[j].name,
            forall|j: int|
                0 <= j < all.len() ==> #[trigger] value_spans[j] == (
                    all[j].value.0 - 1,
                    all[j].value.1 + 1,
                ),
            forall|j: int|
                0 <= j < all.len() ==> {
                    &&& (#[trigger] names@[j]).0 == byte_offset(text@, name_spans[j].0)
                    &&& names@[j].1 == byte_offset(text@, name_spans[j].1)
                },
            forall|j: int|
                0 <= j < all.len() ==> {
                    &&& (#[trigger] values@[j]).0 == byte_offset(text@, value_spans[j].0)
                    &&& values@[j].1 == byte_offset(text@, value_spans[j].1)
                },
            end_of_first(text@, all, key@) == end_of_first(text@, all.skip(i as int), key@),
    {
        let name = names[i];
        let ghost attribute = all[i as int];
        proof {
            assert(name_spans[i as int] == attribute.name);
            assert(value_spans[i as int].1 == attribute.value.1 + 1);
            assert(all.skip(i as int)[0] == attribute);
            assert(all.skip(i as int).drop_first() =~= all.skip(i + 1));
            lemma_offset_within(text@, attribute.name.0, attribute.name.1);
            lemma_offset_within(text@, attribute.name.1, attribute.value.1 + 1);
            lemma_offset_of_quote(text@, attribute.value.1);
        }
        let (head, _) = cut(text, name.1, Ghost(attribute.name.1));
        let (_, found) = cut(head, name.0, Ghost(attribute.name.0));
        assert(found@ =~= text@.subrange(attribute.name.0, attribute.name.1));
        if found.to_owned() == wanted {
            return Some(values[i].1 - 1);
        }
    }
    assert(all.skip(all.len() as int) =~= Seq::<Attribute>::empty());
    None
}

/// where a place in a list of attributes is in the whole element
proof fn lemma_offset_of_part(element: Seq<char>, list: (int, int), place: int)
    requires
        0 <= list.0 <= list.1 <= element.len(),
        0 <= place <= list.1 - list.0,
    ensures
        byte_offset(list_text(element, list), place) == byte_offset(element, list.0 + place)
            - byte_offset(element, list.0),
{
    lemma_offset_within(element, list.0, list.0 + place);
    assert(list_text(element, list).take(place) =~= element.skip(list.0).take(place));
}

/// find out where the value that the key already has in a tag ends, as a byte of the element
fn search(element: &str, key: &str, span: (usize, usize), Ghost(list): Ghost<(int, int)>) -> (end:
    Option<usize>)
    requires
        0 <= list.0 <= list.1 <= element@.len(),
        span.0 == byte_offset(element@, list.0),
        span.1 == byte_offset(element@, list.1),
    ensures
        list.0 <= infix_place(element@, key@, list) <= list.1,
        end is Some <==> value_end(element@, key@, list) is Some,
        end is Some ==> end->0 == byte_offset(element@, value_end(element@, key@, list)->0),
{
    proof {
        lemma_offset_within(element@, list.0, list.1);
    }
    let (head, _) = cut(element, span.1, Ghost(list.1));
    let (_, attribute_list) = cut(head, span.0, Ghost(list.0));
    assert(attribute_list@ =~= list_text(element@, list));
    match find_value(attribute_list, key) {
        Some(end) => {
            proof {
                let place = value_end(element@, key@, list)->0;
                lemma_offset_of_part(element@, list, place - list.0);
                lemma_offset_within(element@, place, list.1);
            }
            Some(span.0 + end)
        },
        None => None,
    }
}

/// put the attribute after what has been written, or only its value if the key is there already
fn append_infix(out: &mut String, key: &str, value: &str, found: bool)
    ensures
        final(out)@ == old(out)@ + (if found {
            " "@ + value@
        } else {
            " "@ + key@ + "=\""@ + value@ + "\""@
        }),
{
    let ghost before = out@;
    out.append(" ");
    if found {
        out.append(value);
        assert(out@ =~= before + (" "@ + value@));
    } else {
        out.append(key);
        out.append("=\"");
        out.append(value);
        out.append("\"");
        assert(out@ =~= before + (" "@ + key@ + "=\""@ + value@ + "\""@));
    }
}

proof fn lemma_splice(
    so_far: Seq<char>,
    element: Seq<char>,
    key: Seq<char>,
    value: Seq<char>,
    lists: Seq<(int, int)>,
    i: int,
    place: int,
)
    requires
        0 <= i < lists.len(),
    ensures
        ({
            let next = infix_place(element, key, lists[i]);
            so_far + element.subrange(place, next) + infix(element, key, value, lists[i]) + spliced(
                element,
                key,
                value,
                lists.skip(i + 1),
                next,
            ) == so_far + spliced(element, key, value, lists.skip(i), place)
        }),
{
    let next = infix_place(element, key, lists[i]);
    let left = lists.skip(i);
    assert(left.drop_first() =~= lists.skip(i + 1));
    assert(so_far + element.subrange(place, next) + infix(element, key, value, lists[i]) + spliced(
        element,
        key,
        value,
        lists.skip(i + 1),
        next,
    ) =~= so_far + spliced(element, key, value, left, place));
}

/// take an SVG string and insert the given attribute key and value to every top-level
/// tag in it.  if the key is already there, append to the existing value
pub fn insert_attribute(element: &str, key: &str, value: &str) -> (r: Result<String, Failure>)
    ensures
        result_view(r) == with_attribute(element@, key@, value@),
{
    let ghost lists = attribute_lists(element@, 0);
    proof {
        lemma_attribute_lists(element@, 0);
    }
    // find the index of every top-level tag in the string
    let found = capture_each(TOP_LEVEL_TAG, element, 1);
    if found.len() == 0 {
        return Err(MapError::NoTopLevelTag { element: element.to_owned() });
    }
    let mut modified_element = String::new();
    let mut rest = element;
    let mut done: usize = 0;
    let ghost mut place: int = 0;
    assert(element@.skip(0) =~= element@);
    assert(element@.take(0) =~= Seq::<char>::empty());
    assert(lists.skip(0) =~= lists);
    for i in 0..found.len()
        invariant
            lists == attribute_lists(element@, 0),
            found@.len() == lists.len(),
            forall|j: int|
                0 <= j < found@.len() ==> {
                    &&& (#[trigger] found@[j]).0 == byte_offset(element@, lists[j].0)
                    &&& found@[j].1 == byte_offset(element@, lists[j].1)
                },
            forall|j: int|
                0 <= j < lists.len() ==> 0 <= (#[trigger] lists[j]).0 <= lists[j].1 < element@.len(),
            forall|j: int, k: int|
                0 <= j < k < lists.len() ==> (#[trigger] lists[j]).1 <= (#[trigger] lists[k]).0,
            0 <= place <= element@.len(),
            i > 0 ==> place <= lists[i - 1].1,
            i == 0 ==> place == 0,
            rest@ == element@.skip(place),
            done == byte_offset(element@, place),
            modified_element@ + spliced(element@, key@, value@, lists.skip(i as int), place)
                == spliced(element@, key@, value@, lists, 0),
    {
        let span = found[i];
        let ghost list = lists[i as int];
        let ghost so_far = modified_element@;
        // check if the desired attribute key is already present in this tag
        let end = search(element, key, span, Ghost(list));
        // this determines what you insert and where
        let position: usize = match end {
            Some(end) => end,
            None => span.0,
        };
        let ghost next = infix_place(element@, key@, list);
        proof {
            if i > 0 {
                assert(lists[i - 1].1 <= lists[i as int].0);
            }
            lemma_offset_within(element@, place, next);
        }
        let (before, after) = cut(rest, position - done, Ghost(next - place));
        modified_element.append(before);
        append_infix(&mut modified_element, key, value, end.is_some());
        rest = after;
        done = position;
        proof {
            assert(before@ =~= element@.subrange(place, next));
            assert(after@ =~= element@.skip(next));
            lemma_splice(so_far, element@, key@, value@, lists, i as int, place);
            place = next;
        }
    }
    modified_element.append(rest);
    assert(lists.skip(lists.len() as int) =~= Seq::<(int, int)>::empty());
    Ok(modified_element)
}

/// up to the place of the first insertion, the element stays as it is
proof fn lemma_spliced_skips(
    element: Seq<char>,
    key: Seq<char>,
    value: Seq<char>,
    lists: Seq<(int, int)>,
    from: int,
    to: int,
)
    requires
        0 <= from <= to <= element.len(),
        lists.len() > 0 ==> to <= infix_place(element, key, lists[0]) <= element.len(),
    ensures
        spliced(element, key, value, lists, from) == element.subrange(from, to) + spliced(
            element,
            key,
            value,
            lists,
            to,
        ),
{
    if lists.len() == 0 {
        assert(element.skip(from) =~= element.subrange(from, to) + element.skip(to));
    } else {
        let place = infix_place(element, key, lists[0]);
        assert(element.subrange(from, place) =~= element.subrange(from, to) + element.subrange(
            to,
            place,
        ));
        assert(spliced(element, key, value, lists, from) =~= element.subrange(from, to) + spliced(
            element,
            key,
            value,
            lists,
            to,
        ));
    }
}

proof fn lemma_past_letters_stop(text: Seq<char>, from: int)
    requires
        0 <= from <= text.len(),
    ensures
        past_letters(text, from) < text.len() ==> !is_letter(text[past_letters(text, from)]),
        from < text.len() && is_letter(text[from]) ==> past_letters(text, from) > from,
    decreases text.len() - from,
{
    lemma_past_letters(text, from);
    if from < text.len() && is_letter(text[from]) {
        lemma_past_letters(text, from + 1);
        lemma_past_letters_stop(text, from + 1);
    }
}

proof fn lemma_past_letters_is(text: Seq<char>, from: int, to: int)
    requires
        0 <= from <= to <= text.len(),
        forall|i: int| from <= i < to ==> is_letter(#[trigger] text[i]),
        to < text.len() ==> !is_letter(text[to]),
    ensures
        past_letters(text, from) == to,
    decreases to - from,
{
    if from < to {
        lemma_past_letters_is(text, from + 1, to);
    }
}

/// the attributes of a tag come after at least two characters
proof fn lemma_first_list_is_later(text: Seq<char>, from: int)
    requires
        0 <= from,
        attribute_lists(text, from).len() > 0,
    ensures
        attribute_lists(text, from)[0].0 >= from + 2,
    decreases text.len() - from,
{
    if is_top_level_tag(text, from) {
        lemma_find(text, '>', from + 1);
        lemma_past_letters_stop(text, from + 1);
    } else {
        assert(attribute_lists(text, from) == attribute_lists(text, from + 1));
        lemma_first_list_is_later(text, from + 1);
    }
}

/// each list of attributes ends where its tag does
proof fn lemma_lists_end_tags(text: Seq<char>, from: int)
    requires
        0 <= from,
    ensures
        forall|i: int|
            0 <= i < attribute_lists(text, from).len() ==> text[(#[trigger] attribute_lists(
                text,
                from,
            )[i]).1] == '>',
    decreases text.len() - from,
{
    if from < text.len() {
        if is_top_level_tag(text, from) {
            lemma_find(text, '>', from + 1);
            let end = find(text, '>', from + 1);
            lemma_lists_end_tags(text, end + 1);
            let rest = attribute_lists(text, end + 1);
            let all = attribute_lists(text, from);
            assert(all =~= seq![(past_letters(text, from + 1), end)] + rest);
            assert forall|i: int| 0 <= i < all.len() implies text[(#[trigger] all[i]).1] == '>' by {
                if i > 0 {
                    assert(all[i] == rest[i - 1]);
                }
            }
        } else {
            assert(attribute_lists(text, from) == attribute_lists(text, from + 1));
            lemma_lists_end_tags(text, from + 1);
        }
    }
}

/// whether this can be the name of an attribute in a tag
pub open spec fn is_name(key: Seq<char>) -> bool {
    &&& key.len() > 0
    &&& forall|i: int| 0 <= i < key.len() ==> is_name_char(#[trigger] key[i]) && key[i] != '>'
}

/// whether a name stands at this place with an equals sign and this quote after it
pub open spec fn opens(text: Seq<char>, at: int, quote: char) -> bool {
    let name_end = past_name(text, at);
    let equals = past_white_space(text, name_end);
    let open = past_white_space(text, equals + 1);
    &&& 0 <= at < name_end
    &&& equals < text.len() && text[equals] == '='
    &&& open < text.len() && text[open] == quote && is_quote(quote)
}

/// whether this quote is opened and not closed anymore before the value that the key has
pub open spec fn is_left_open(text: Seq<char>, key: Seq<char>, from: int, quote: char) -> bool
    decreases text.len() - from,
{
    if from < 0 || from >= text.len() {
        false
    } else {
        match attribute_at(text, from) {
            Some(attribute) => {
                &&& text.subrange(attribute.name.0, attribute.name.1) != key
                &&& attribute.value.1 >= from && is_left_open(
                    text,
                    key,
                    attribute.value.1 + 1,
                    quote,
                )
            },
            None => opens(text, from, quote) || is_left_open(text, key, from + 1, quote),
        }
    }
}

/// whether more text can be put in at the end of the value that the key has among these attributes
/// from one place on, without closing a quote: neither the one around the value nor one that was
/// left open before it
pub open spec fn closes_no_quote(
    insert: Seq<char>,
    text: Seq<char>,
    key: Seq<char>,
    from: int,
) -> bool {
    &&& end_of_first(text, attributes(text, from), key) matches Some(end) ==> !insert.contains(
        text[end],
    )
    &&& forall|quote: char| #[trigger]
        is_left_open(text, key, from, quote) ==> !insert.contains(quote)
}

/// whether the value can go with the one that the key already has in this tag
pub open spec fn can_be_appended(
    element: Seq<char>,
    key: Seq<char>,
    value: Seq<char>,
    list: (int, int),
) -> bool {
    value_end(element, key, list) is Some ==> closes_no_quote(
        value,
        list_text(element, list),
        key,
        0,
    )
}

/// whether the value can be put between quotes, or the key already has one in this tag
pub open spec fn can_be_quoted(
    element: Seq<char>,
    key: Seq<char>,
    value: Seq<char>,
    list: (int, int),
) -> bool {
    value_end(element, key, list) is None ==> !value.contains('"')
}

/// the attribute that is found is one of those in the text
proof fn lemma_end_of_first(text: Seq<char>, key: Seq<char>, from: int) -> (at: int)
    requires
        0 <= from,
        end_of_first(text, attributes(text, from), key) is Some,
    ensures
        from <= at,
        attribute_at(text, at) is Some,
        attribute_at(text, at)->0.value.1 == end_of_first(text, attributes(text, from), key)->0,
        ({
            let name = attribute_at(text, at)->0.name;
            text.subrange(name.0, name.1) == key
        }),
    decreases text.len() - from,
{
    match attribute_at(text, from) {
        Some(attribute) => {
            lemma_attribute_at(text, from);
            let next = attribute.value.1 + 1;
            let all = attributes(text, from);
            assert(all =~= seq![attribute] + attributes(text, next));
            assert(all.drop_first() =~= attributes(text, next));
            if text.subrange(attribute.name.0, attribute.name.1) == key {
                from
            } else {
                lemma_end_of_first(text, key, next)
            }
        },
        None => {
            assert(attributes(text, from) == attributes(text, from + 1));
            lemma_end_of_first(text, key, from + 1)
        },
    }
}

/// an attribute that ends before the place where another text is put in stays where it is
proof fn lemma_attribute_stays(text: Seq<char>, other: Seq<char>, end: int, at: int)
    requires
        0 <= at,
        0 <= end <= text.len(),
        end <= other.len(),
        forall|i: int| 0 <= i < end ==> #[trigger] other[i] == text[i],
        attribute_at(text, at) is Some,
        attribute_at(text, at)->0.value.1 < end,
    ensures
        attribute_at(other, at) == attribute_at(text, at),
        forall|a: int, b: int| 0 <= a <= b <= end ==> #[trigger] other.subrange(a, b) =~= text.subrange(a, b),
{
    lemma_attribute_at(text, at);
    lemma_heads_agree(text, other, end, at);
    let a = attribute_at(text, at)->0;
    let open = a.value.0 - 1;
    lemma_find(text, text[open], open + 1);
    lemma_find_is(other, text[open], open + 1, a.value.1);
}

/// what comes before the value of an attribute is found in the same places
proof fn lemma_heads_agree(text: Seq<char>, other: Seq<char>, end: int, at: int)
    requires
        0 <= at,
        0 <= end <= text.len(),
        end <= other.len(),
        forall|i: int| 0 <= i < end ==> #[trigger] other[i] == text[i],
        at <= text.len(),
        ({
            let name_end = past_name(text, at);
            let equals = past_white_space(text, name_end);
            let open = past_white_space(text, equals + 1);
            name_end < end && equals < end && (text[equals] == '=' ==> open < end)
        }),
    ensures
        ({
            let name_end = past_name(text, at);
            let equals = past_white_space(text, name_end);
            let open = past_white_space(text, equals + 1);
            &&& past_name(other, at) == name_end
            &&& past_white_space(other, name_end) == equals
            &&& at <= name_end <= equals
            &&& text[equals] == '=' ==> past_white_space(other, equals + 1) == open && equals < open
        }),
{
    lemma_past_name(text, at);
    let name_end = past_name(text, at);
    lemma_past_white_space(text, name_end);
    let equals = past_white_space(text, name_end);
    assert forall|i: int| at <= i < name_end implies is_name_char(#[trigger] other[i]) by {
        assert(is_name_char(text[i]));
    }
    lemma_past_name_is(other, at, name_end);
    assert forall|i: int| name_end <= i < equals implies is_white_space(#[trigger] other[i]) by {
        assert(is_white_space(text[i]));
    }
    lemma_past_white_space_is(other, name_end, equals);
    if text[equals] == '=' {
        lemma_past_white_space(text, equals + 1);
        let open = past_white_space(text, equals + 1);
        assert forall|i: int| equals + 1 <= i < open implies is_white_space(#[trigger] other[i]) by {
            assert(is_white_space(text[i]));
        }
        lemma_past_white_space_is(other, equals + 1, open);
    }
}

/// what is left open is a quote, and it stands in the text
proof fn lemma_left_open(text: Seq<char>, key: Seq<char>, from: int, quote: char)
    requires
        0 <= from,
        is_left_open(text, key, from, quote),
    ensures
        is_quote(quote),
        text.contains(quote),
    decreases text.len() - from,
{
    match attribute_at(text, from) {
        Some(attribute) => {
            lemma_attribute_at(text, from);
            lemma_left_open(text, key, attribute.value.1 + 1, quote);
        },
        None => {
            if opens(text, from, quote) {
                lemma_past_name(text, from);
                let name_end = past_name(text, from);
                lemma_past_white_space(text, name_end);
                let equals = past_white_space(text, name_end);
                lemma_past_white_space(text, equals + 1);
                assert(text[past_white_space(text, equals + 1)] == quote);
            } else {
                lemma_left_open(text, key, from + 1, quote);
            }
        },
    }
}

/// where there was no attribute before the one whose value is added to, there is none afterward
proof fn lemma_no_attribute_appears(
    text: Seq<char>,
    insert: Seq<char>,
    end: int,
    from: int,
    at: int,
)
    requires
        0 <= from < at,
        attribute_at(text, at) is Some,
        attribute_at(text, at)->0.value.1 == end,
        attribute_at(text, from) is None,
        forall|quote: char| #[trigger] opens(text, from, quote) ==> !insert.contains(quote),
    ensures
        attribute_at(text.take(end) + insert + text.skip(end), from) is None,
{
    let other = text.take(end) + insert + text.skip(end);
    lemma_attribute_at(text, at);
    assert forall|i: int| 0 <= i < end implies #[trigger] other[i] == text[i] by {}
    lemma_past_name(text, at);
    assert(is_name_char(text[at]));
    // the name can't go into the other name, for then it would be part of that attribute
    lemma_past_name(text, from);
    let name_end = past_name(text, from);
    if name_end > at {
        lemma_past_name_is(text, at, name_end);
        assert(false);
    }
    // nor can the white space
    lemma_past_white_space(text, name_end);
    let equals = past_white_space(text, name_end);
    if equals > at {
        assert(is_white_space(text[at]));
    }
    let open = past_white_space(text, equals + 1);
    if text[equals] == '=' {
        assert(equals < at);
        lemma_past_white_space(text, equals + 1);
        if open > at {
            assert(is_white_space(text[at]));
        }
    }
    lemma_heads_agree(text, other, end, from);
    if attribute_at(other, from) is Some {
        assert(other[equals] == text[equals]);
        assert(other[open] == text[open]);
        let quote = text[open];
        assert(opens(text, from, quote));
        lemma_find(text, quote, open + 1);
        assert(find(text, quote, open + 1) == text.len());
        let close = find(other, quote, open + 1);
        lemma_find(other, quote, open + 1);
        assert(other[close] == quote);
        if close < end {
            assert(text[close] != quote);
        } else if close < end + insert.len() {
            assert(insert.contains(insert[close - end]));
        } else {
            assert(other[close] == text[close - insert.len()]);
        }
    }
}

/// when text is put in at the end of the value that the key has, that is still the value that the
/// key has
#[verifier::spinoff_prover]
proof fn lemma_value_grows(text: Seq<char>, key: Seq<char>, insert: Seq<char>, from: int)
    requires
        0 <= from,
        end_of_first(text, attributes(text, from), key) is Some,
        closes_no_quote(insert, text, key, from),
    ensures
        ({
            let end = end_of_first(text, attributes(text, from), key)->0;
            let other = text.take(end) + insert + text.skip(end);
            &&& 0 <= end < text.len()
            &&& end_of_first(other, attributes(other, from), key) == Some(end + insert.len())
        }),
    decreases text.len() - from,
{
    let end = end_of_first(text, attributes(text, from), key)->0;
    let at = lemma_end_of_first(text, key, from);
    lemma_attribute_at(text, at);
    let other = text.take(end) + insert + text.skip(end);
    assert forall|i: int| 0 <= i < end implies #[trigger] other[i] == text[i] by {}
    match attribute_at(text, from) {
        Some(attribute) => {
            lemma_attribute_at(text, from);
            let next = attribute.value.1 + 1;
            let all = attributes(text, from);
            assert(all =~= seq![attribute] + attributes(text, next));
            assert(all.drop_first() =~= attributes(text, next));
            let name = attribute.name;
            if text.subrange(name.0, name.1) == key {
                assert(end == attribute.value.1);
                lemma_heads_agree(text, other, end, from);
                let open = attribute.value.0 - 1;
                let quote = text[open];
                lemma_find(text, quote, open + 1);
                assert forall|i: int| open + 1 <= i < end + insert.len() implies #[trigger] other[i]
                    != quote by {
                    if i < end {
                        assert(text[i] != quote);
                    } else {
                        assert(insert.contains(insert[i - end]));
                    }
                }
                assert(other[end + insert.len()] == text[end]);
                lemma_find_is(other, quote, open + 1, end + insert.len());
                assert(other.subrange(name.0, name.1) =~= key);
            } else {
                assert forall|quote: char| #[trigger]
                    is_left_open(text, key, next, quote) implies !insert.contains(quote) by {
                    assert(is_left_open(text, key, from, quote));
                }
                lemma_value_grows(text, key, insert, next);
                let later = lemma_end_of_first(text, key, next);
                lemma_attribute_at(text, later);
                lemma_attribute_stays(text, other, end, from);
                assert(other.subrange(name.0, name.1) == text.subrange(name.0, name.1));
                let others = attributes(other, from);
                assert(others =~= seq![attribute] + attributes(other, next));
                assert(others.drop_first() =~= attributes(other, next));
            }
        },
        None => {
            assert(attributes(text, from) == attributes(text, from + 1));
            assert forall|quote: char| #[trigger]
                is_left_open(text, key, from + 1, quote) implies !insert.contains(quote) by {
                assert(is_left_open(text, key, from, quote));
            }
            lemma_value_grows(text, key, insert, from + 1);
            assert(from < at);
            assert forall|quote: char| #[trigger] opens(text, from, quote) implies !insert.contains(
                quote,
            ) by {
                assert(is_left_open(text, key, from, quote));
            }
            lemma_no_attribute_appears(text, insert, end, from, at);
            assert(attributes(other, from) == attributes(other, from + 1));
        },
    }
}

/// when a new attribute is put before all others, it is the first with its name
proof fn lemma_new_value(text: Seq<char>, key: Seq<char>, value: Seq<char>)
    requires
        is_name(key),
    ensures
        ({
            let insert = " "@ + key + "=\""@ + value + "\""@;
            let other = insert + text;
            &&& end_of_first(other, attributes(other, 0), key) is Some
            &&& !value.contains('"') ==> end_of_first(other, attributes(other, 0), key) == Some(
                insert.len() - 1,
            )
        }),
{
    reveal_strlit(" ");
    reveal_strlit("=\"");
    reveal_strlit("\"");
    let insert = " "@ + key + "=\""@ + value + "\""@;
    let other = insert + text;
    let k = key.len() as int;
    assert(other[0] == ' ');
    assert forall|i: int| 1 <= i < 1 + k implies is_name_char(#[trigger] other[i]) by {
        assert(other[i] == key[i - 1]);
    }
    assert(other[1 + k] == '=');
    assert(other[2 + k] == '"');
    assert(other[insert.len() - 1] == '"');
    lemma_past_name_is(other, 1, 1 + k);
    lemma_past_white_space_is(other, 1 + k, 1 + k);
    lemma_past_white_space_is(other, 2 + k, 2 + k);
    lemma_find(other, '"', 3 + k);
    if find(other, '"', 3 + k) >= insert.len() {
        assert(other[insert.len() - 1] != '"');
    }
    assert(past_name(other, 0) == 0);
    assert(attribute_at(other, 0) is None);
    assert(attributes(other, 0) == attributes(other, 1));
    assert(attribute_at(other, 1) is Some);
    let attribute = attribute_at(other, 1)->0;
    assert(other.subrange(1, 1 + k) =~= key);
    assert(attributes(other, 1)[0] == attribute);
    if !value.contains('"') {
        assert forall|i: int| 3 + k <= i < insert.len() - 1 implies #[trigger] other[i] != '"' by {
            assert(other[i] == value[i - 3 - k]);
            assert(value.contains(value[i - 3 - k]));
        }
        lemma_find_is(other, '"', 3 + k, insert.len() - 1);
    }
}

/// where the new text goes is among the attributes
proof fn lemma_infix_place(element: Seq<char>, key: Seq<char>, list: (int, int))
    requires
        0 <= list.0 <= list.1 <= element.len(),
    ensures
        list.0 <= infix_place(element, key, list) <= list.1,
{
    let text = list_text(element, list);
    if value_end(element, key, list) is Some {
        let at = lemma_end_of_first(text, key, 0);
        lemma_attribute_at(text, at);
    }
}

/// where the value ends that the key has once the attribute has been inserted
pub open spec fn new_value_end(
    element: Seq<char>,
    key: Seq<char>,
    value: Seq<char>,
    list: (int, int),
) -> int {
    let end = infix_place(element, key, list) + infix(element, key, value, list).len();
    if value_end(element, key, list) is Some {
        end
    } else {
        end - 1
    }
}

/// what becomes of the attributes of a tag when another is inserted
proof fn lemma_list_has_attribute(
    element: Seq<char>,
    key: Seq<char>,
    value: Seq<char>,
    list: (int, int),
    result: Seq<char>,
    new_list: (int, int),
)
    requires
        is_name(key),
        0 <= list.0 <= list.1 <= element.len(),
        can_be_appended(element, key, value, list),
        ({
            let middle = infix_place(element, key, list);
            list_text(result, new_list) == element.subrange(list.0, middle) + infix(
                element,
                key,
                value,
                list,
            ) + element.subrange(middle, list.1)
        }),
    ensures
        value_end(result, key, new_list) is Some,
        can_be_quoted(element, key, value, list) ==> value_end(result, key, new_list) == Some(
            new_list.0 - list.0 + new_value_end(element, key, value, list),
        ),
{
    reveal_strlit(" ");
    let text = list_text(element, list);
    let other = list_text(result, new_list);
    lemma_infix_place(element, key, list);
    let middle = infix_place(element, key, list);
    let insert = infix(element, key, value, list);
    match value_end(element, key, list) {
        Some(end) => {
            let place = end - list.0;
            assert(other =~= text.take(place) + insert + text.skip(place));
            assert forall|quote: char| is_quote(quote) && !value.contains(
                quote,
            ) implies !#[trigger] insert.contains(quote) by {
                if insert.contains(quote) {
                    let i = choose|i: int| 0 <= i < insert.len() && insert[i] == quote;
                    assert(i > 0);
                    assert(value[i - 1] == quote);
                }
            }
            let at = lemma_end_of_first(text, key, 0);
            lemma_attribute_at(text, at);
            assert forall|quote: char| #[trigger]
                is_left_open(text, key, 0, quote) implies !insert.contains(quote) by {
                lemma_left_open(text, key, 0, quote);
            }
            lemma_value_grows(text, key, insert, 0);
        },
        None => {
            assert(other =~= insert + text);
            lemma_new_value(text, key, value);
        },
    }
}

/// what is inserted starts with a space and does not end the tag
proof fn lemma_infix_stays_inside(
    element: Seq<char>,
    key: Seq<char>,
    value: Seq<char>,
    list: (int, int),
)
    requires
        is_name(key),
        !value.contains('>'),
    ensures
        ({
            let insert = infix(element, key, value, list);
            &&& insert.len() > 0
            &&& insert[0] == ' '
            &&& forall|i: int| 0 <= i < insert.len() ==> #[trigger] insert[i] != '>'
        }),
{
    reveal_strlit(" ");
    reveal_strlit("=\"");
    reveal_strlit("\"");
    let insert = infix(element, key, value, list);
    let k = key.len() as int;
    let v = value.len() as int;
    assert forall|i: int| 0 <= i < insert.len() implies #[trigger] insert[i] != '>' by {
        if value_end(element, key, list) is Some {
            if i > 0 {
                assert(value.contains(value[i - 1]));
            }
        } else {
            if 0 < i <= k {
                assert(insert[i] == key[i - 1]);
            } else if k + 3 <= i < k + 3 + v {
                assert(value.contains(value[i - k - 3]));
            }
        }
    }
}

/// a part of the element into which something has been inserted, piece by piece
proof fn lemma_pieces(
    element: Seq<char>,
    place: int,
    middle: int,
    end: int,
    insert: Seq<char>,
    result: Seq<char>,
    new_place: int,
    a: int,
)
    requires
        0 <= place <= a <= middle <= end < element.len(),
        0 <= new_place <= result.len(),
        (element.subrange(place, middle) + insert + element.subrange(middle, end + 1)).is_prefix_of(
            result.skip(new_place),
        ),
    ensures
        ({
            let shift = new_place - place;
            let n = insert.len();
            &&& end + shift + n < result.len()
            &&& forall|i: int| place <= i < middle ==> #[trigger] element[i] == result[i + shift]
            &&& forall|i: int| 0 <= i < n ==> #[trigger] insert[i] == result[middle + shift + i]
            &&& forall|i: int| middle <= i <= end ==> #[trigger] element[i] == result[i + shift + n]
            &&& result.subrange(a + shift, end + shift + n) == element.subrange(a, middle) + insert
                + element.subrange(middle, end)
        }),
{
    let shift = new_place - place;
    let n = insert.len();
    let start = element.subrange(place, middle) + insert + element.subrange(middle, end + 1);
    assert forall|i: int| 0 <= i < start.len() implies #[trigger] start[i] == result[new_place
        + i] by {
        assert(result.skip(new_place)[i] == result[new_place + i]);
    }
    assert forall|i: int| place <= i < middle implies #[trigger] element[i] == result[i + shift] by {
        assert(start[i - place] == element[i]);
    }
    assert forall|i: int| 0 <= i < n implies #[trigger] insert[i] == result[middle + shift + i] by {
        assert(start[middle - place + i] == insert[i]);
    }
    assert forall|i: int| middle <= i <= end implies #[trigger] element[i] == result[i + shift
        + n] by {
        assert(start[i - place + n] == element[i]);
    }
    assert(result.subrange(a + shift, end + shift + n) =~= start.subrange(
        a - place,
        end - place + n,
    ));
    assert(start.subrange(a - place, end - place + n) =~= element.subrange(a, middle) + insert
        + element.subrange(middle, end));
}

/// the tag at one place, and what becomes of it when the attribute is inserted
#[verifier::spinoff_prover]
proof fn lemma_tag_has_attribute(
    element: Seq<char>,
    key: Seq<char>,
    value: Seq<char>,
    place: int,
    result: Seq<char>,
    new_place: int,
)
    requires
        is_name(key),
        !value.contains('>'),
        is_top_level_tag(element, place),
        0 <= new_place <= result.len(),
        is_line_start(result, new_place),
        can_be_appended(
            element,
            key,
            value,
            (past_letters(element, place + 1), find(element, '>', place + 1)),
        ),
        ({
            let end = find(element, '>', place + 1);
            let list = (past_letters(element, place + 1), end);
            let middle = infix_place(element, key, list);
            let start = element.subrange(place, middle) + infix(element, key, value, list)
                + element.subrange(middle, end + 1);
            start.is_prefix_of(result.skip(new_place))
        }),
    ensures
        ({
            let end = find(element, '>', place + 1);
            let list = (past_letters(element, place + 1), end);
            let new_end = new_place + (end - place) + infix(element, key, value, list).len();
            let new_list = (past_letters(result, new_place + 1), new_end);
            &&& is_top_level_tag(result, new_place)
            &&& find(result, '>', new_place + 1) == new_end
            &&& value_end(result, key, new_list) is Some
            &&& can_be_quoted(element, key, value, list) ==> value_end(result, key, new_list)
                == Some(new_place - place + new_value_end(element, key, value, list))
        }),
{
    lemma_find(element, '>', place + 1);
    lemma_past_letters(element, place + 1);
    let end = find(element, '>', place + 1);
    let a = past_letters(element, place + 1);
    let list = (a, end);
    lemma_past_letters_stop(element, place + 1);
    if end < a {
        assert(is_letter(element[end]));
    }
    assert(a > place + 1);
    lemma_infix_place(element, key, list);
    let middle = infix_place(element, key, list);
    let insert = infix(element, key, value, list);
    let n = insert.len() as int;
    let shift = new_place - place;
    let new_end = end + shift + n;
    lemma_pieces(element, place, middle, end, insert, result, new_place, a);
    lemma_infix_stays_inside(element, key, value, list);
    assert(element[end] == result[new_end]);
    assert forall|i: int| new_place + 1 <= i < new_end implies #[trigger] result[i] != '>' by {
        if i - shift < middle {
            assert(element[i - shift] == result[i]);
        } else if i - shift < middle + n {
            assert(insert[i - shift - middle] == result[i]);
        } else {
            assert(element[i - shift - n] == result[i]);
        }
    }
    lemma_find_is(result, '>', new_place + 1, new_end);
    assert(element[place] == result[new_place]);
    assert(element[place + 1] == result[new_place + 1]);
    // the name of the tag ends where it did
    assert(past_letters(result, new_place + 1) == a + shift) by {
        assert forall|i: int| new_place + 1 <= i < a + shift implies is_letter(
            #[trigger] result[i],
        ) by {
            assert(element[i - shift] == result[i]);
        }
        if middle > a {
            assert(element[a] == result[a + shift]);
        } else {
            assert(insert[0] == result[a + shift]);
        }
        lemma_past_letters_is(result, new_place + 1, a + shift);
    }
    // and the key is there
    lemma_list_has_attribute(element, key, value, list, result, (a + shift, new_end));
}

/// the text that is inserted when one value is inserted after another
proof fn lemma_infix_of_both(
    element: Seq<char>,
    key: Seq<char>,
    value: Seq<char>,
    after: Seq<char>,
    list: (int, int),
    before: Seq<char>,
    behind: Seq<char>,
)
    ensures
        ({
            let insert = infix(element, key, value, list);
            let both = infix(element, key, value + " "@ + after, list);
            let start = before + insert + behind;
            let cut = before.len() + insert.len() - if value_end(element, key, list) is Some {
                0int
            } else {
                1int
            };
            start.take(cut) + (" "@ + after) + start.skip(cut) == before + both + behind
        }),
{
    reveal_strlit(" ");
    reveal_strlit("=\"");
    reveal_strlit("\"");
    let insert = infix(element, key, value, list);
    let both = infix(element, key, value + " "@ + after, list);
    let start = before + insert + behind;
    let cut = before.len() + insert.len() - if value_end(element, key, list) is Some {
        0int
    } else {
        1int
    };
    assert(start.take(cut) + (" "@ + after) + start.skip(cut) =~= before + both + behind);
}

/// the first tag with the attribute inserted, and then the rest
proof fn lemma_tag_by_tag(
    element: Seq<char>,
    key: Seq<char>,
    value: Seq<char>,
    lists: Seq<(int, int)>,
    place: int,
    end: int,
)
    requires
        lists.len() > 0,
        0 <= place <= lists[0].0 <= lists[0].1 == end < element.len(),
        lists.len() > 1 ==> end < lists[1].0 <= lists[1].1 <= element.len(),
    ensures
        ({
            let middle = infix_place(element, key, lists[0]);
            &&& lists[0].0 <= middle <= end
            &&& spliced(element, key, value, lists, place) == (element.subrange(place, middle)
                + infix(element, key, value, lists[0]) + element.subrange(middle, end + 1))
                + spliced(element, key, value, lists.drop_first(), end + 1)
        }),
{
    let others = lists.drop_first();
    lemma_infix_place(element, key, lists[0]);
    if others.len() > 0 {
        lemma_infix_place(element, key, others[0]);
    }
    let middle = infix_place(element, key, lists[0]);
    let insert = infix(element, key, value, lists[0]);
    lemma_spliced_skips(element, key, value, others, middle, end + 1);
    let before = element.subrange(place, middle);
    let behind = element.subrange(middle, end + 1);
    let rest = spliced(element, key, value, others, end + 1);
    assert(before + insert + (behind + rest) =~= (before + insert + behind) + rest);
}

/// a tag into which one value is inserted after another
#[verifier::spinoff_prover]
proof fn lemma_tag_takes_both(
    element: Seq<char>,
    key: Seq<char>,
    value: Seq<char>,
    after: Seq<char>,
    place: int,
    lists: Seq<(int, int)>,
    end: int,
    result: Seq<char>,
    new_place: int,
    new_lists: Seq<(int, int)>,
    new_end: int,
)
    requires
        lists.len() > 0,
        new_lists.len() > 0,
        0 <= place < lists[0].0 <= lists[0].1 == end < element.len(),
        lists.len() > 1 ==> end < lists[1].0 <= lists[1].1 <= element.len(),
        0 <= new_place < new_lists[0].0 <= new_lists[0].1 == new_end < result.len(),
        new_lists.len() > 1 ==> new_end < new_lists[1].0 <= new_lists[1].1 <= result.len(),
        value_end(result, key, new_lists[0]) == Some(
            new_place - place + new_value_end(element, key, value, lists[0]),
        ),
        ({
            let middle = infix_place(element, key, lists[0]);
            result.subrange(new_place, new_end + 1) == element.subrange(place, middle) + infix(
                element,
                key,
                value,
                lists[0],
            ) + element.subrange(middle, end + 1)
        }),
        spliced(result, key, after, new_lists.drop_first(), new_end + 1) == spliced(
            element,
            key,
            value + " "@ + after,
            lists.drop_first(),
            end + 1,
        ),
    ensures
        spliced(result, key, after, new_lists, new_place) == spliced(
            element,
            key,
            value + " "@ + after,
            lists,
            place,
        ),
{
    let both = value + " "@ + after;
    let (list, new_list) = (lists[0], new_lists[0]);
    lemma_tag_by_tag(element, key, both, lists, place, end);
    lemma_tag_by_tag(result, key, after, new_lists, new_place, new_end);
    let middle = infix_place(element, key, list);
    let before = element.subrange(place, middle);
    let behind = element.subrange(middle, end + 1);
    lemma_infix_of_both(element, key, value, after, list, before, behind);
    let new_middle = infix_place(result, key, new_list);
    let start = result.subrange(new_place, new_end + 1);
    let cut = new_middle - new_place;
    assert(infix(result, key, after, new_list) == " "@ + after);
    assert(cut == before.len() + infix(element, key, value, list).len() - if value_end(
        element,
        key,
        list,
    ) is Some {
        0int
    } else {
        1int
    });
    assert(result.subrange(new_place, new_middle) =~= start.take(cut));
    assert(result.subrange(new_middle, new_end + 1) =~= start.skip(cut));
}

/// nothing is inserted before the next character, nor where no tag ends after it
proof fn lemma_next_character_stays(
    element: Seq<char>,
    key: Seq<char>,
    value: Seq<char>,
    place: int,
)
    requires
        0 <= place < element.len(),
    ensures
        ({
            let tail = spliced(element, key, value, attribute_lists(element, place), place);
            &&& tail.len() > 0
            &&& tail[0] == element[place]
            &&& find(element, '>', place) >= element.len() ==> tail == element.skip(place)
        }),
{
    let lists = attribute_lists(element, place);
    let tail = spliced(element, key, value, lists, place);
    lemma_find(element, '>', place);
    if lists.len() > 0 {
        lemma_attribute_lists(element, place);
        lemma_first_list_is_later(element, place);
        lemma_infix_place(element, key, lists[0]);
        lemma_lists_end_tags(element, place);
        assert(element[lists[0].1] == '>');
        lemma_spliced_skips(element, key, value, lists, place, place + 1);
        assert(element.subrange(place, place + 1)[0] == element[place]);
    }
}

/// where there was no tag, there is none afterward
#[verifier::spinoff_prover]
proof fn lemma_no_tag_appears(
    element: Seq<char>,
    key: Seq<char>,
    value: Seq<char>,
    place: int,
    result: Seq<char>,
    new_place: int,
)
    requires
        0 <= place < element.len(),
        0 <= new_place < result.len(),
        is_line_start(element, place) == is_line_start(result, new_place),
        result[new_place] == element[place],
        result.skip(new_place + 1) == spliced(
            element,
            key,
            value,
            attribute_lists(element, place + 1),
            place + 1,
        ),
        !is_top_level_tag(element, place),
    ensures
        !is_top_level_tag(result, new_place),
{
    let tail = spliced(element, key, value, attribute_lists(element, place + 1), place + 1);
    let rest = result.skip(new_place + 1);
    if is_top_level_tag(result, new_place) {
        lemma_find(result, '>', new_place + 1);
        let at = find(result, '>', new_place + 1);
        assert(rest[at - new_place - 1] == result[at]);
        if place + 1 < element.len() {
            lemma_next_character_stays(element, key, value, place + 1);
            assert(rest[0] == result[new_place + 1]);
            lemma_find(element, '>', place + 1);
            if find(element, '>', place + 1) >= element.len() {
                assert(element[place + 1 + (at - new_place - 1)] == '>');
            }
        } else {
            assert(tail =~= element.skip(place + 1));
            assert(rest.len() == 0);
        }
    }
}

/// whether the rest of the result is what becomes of the rest of the element
spec fn keeps_up(
    element: Seq<char>,
    key: Seq<char>,
    value: Seq<char>,
    place: int,
    result: Seq<char>,
    new_place: int,
) -> bool {
    &&& 0 <= place <= element.len()
    &&& 0 <= new_place <= result.len()
    &&& is_line_start(element, place) == is_line_start(result, new_place)
    &&& result.skip(new_place) == spliced(
        element,
        key,
        value,
        attribute_lists(element, place),
        place,
    )
    &&& forall|i: int|
        0 <= i < attribute_lists(element, place).len() ==> can_be_appended(
            element,
            key,
            value,
            #[trigger] attribute_lists(element, place)[i],
        )
}

/// from one tag to what comes after it
#[verifier::spinoff_prover]
proof fn lemma_past_tag(
    element: Seq<char>,
    key: Seq<char>,
    value: Seq<char>,
    place: int,
    result: Seq<char>,
    new_place: int,
) -> (ends: (int, int))
    requires
        is_name(key),
        !value.contains('>'),
        keeps_up(element, key, value, place, result, new_place),
        place < element.len(),
        is_top_level_tag(element, place),
    ensures
        ({
            let (end, new_end) = ends;
            let lists = attribute_lists(element, place);
            let new_lists = attribute_lists(result, new_place);
            let middle = infix_place(element, key, lists[0]);
            &&& place < end < element.len()
            &&& keeps_up(element, key, value, end + 1, result, new_end + 1)
            &&& lists == seq![lists[0]] + attribute_lists(element, end + 1)
            &&& new_lists == seq![new_lists[0]] + attribute_lists(result, new_end + 1)
            &&& place < lists[0].0 <= lists[0].1 == end
            &&& new_place < new_lists[0].0 <= new_lists[0].1 == new_end < result.len()
            &&& value_end(result, key, new_lists[0]) is Some
            &&& can_be_quoted(element, key, value, lists[0]) ==> value_end(
                result,
                key,
                new_lists[0],
            ) == Some(new_place - place + new_value_end(element, key, value, lists[0]))
            &&& result.subrange(new_place, new_end + 1) == element.subrange(place, middle) + infix(
                element,
                key,
                value,
                lists[0],
            ) + element.subrange(middle, end + 1)
        }),
{
    let lists = attribute_lists(element, place);
    let rest_of_result = result.skip(new_place);
    lemma_find(element, '>', place + 1);
    lemma_past_letters(element, place + 1);
    let end = find(element, '>', place + 1);
    let list = (past_letters(element, place + 1), end);
    if end < list.0 {
        assert(is_letter(element[end]));
    }
    let others = attribute_lists(element, end + 1);
    assert(lists =~= seq![list] + others);
    assert(lists.drop_first() =~= others);
    assert(lists[0] == list);
    assert forall|i: int| 0 <= i < others.len() implies can_be_appended(
        element,
        key,
        value,
        #[trigger] others[i],
    ) by {
        assert(lists[i + 1] == others[i]);
    }
    lemma_infix_place(element, key, list);
    let middle = infix_place(element, key, list);
    let insert = infix(element, key, value, list);
    lemma_attribute_lists(element, end + 1);
    assert(lists.len() > 1 ==> lists[1] == others[0]);
    lemma_tag_by_tag(element, key, value, lists, place, end);
    let start = element.subrange(place, middle) + insert + element.subrange(middle, end + 1);
    let tail = spliced(element, key, value, others, end + 1);
    assert(rest_of_result == start + tail);
    lemma_tag_has_attribute(element, key, value, place, result, new_place);
    let new_end = new_place + (end - place) + insert.len();
    assert(result.skip(new_end + 1) =~= rest_of_result.skip(start.len() as int));
    assert(rest_of_result.skip(start.len() as int) =~= tail);
    assert(result.subrange(new_place, new_end + 1) =~= rest_of_result.take(start.len() as int));
    assert(rest_of_result.take(start.len() as int) =~= start);
    lemma_find(result, '>', new_place + 1);
    lemma_past_letters(result, new_place + 1);
    let new_list = (past_letters(result, new_place + 1), new_end);
    if new_end < new_list.0 {
        assert(is_letter(result[new_end]));
    }
    assert(attribute_lists(result, new_place) =~= seq![new_list] + attribute_lists(
        result,
        new_end + 1,
    ));
    (end, new_end)
}

/// from one place where there is no tag to the next
#[verifier::spinoff_prover]
proof fn lemma_past_other(
    element: Seq<char>,
    key: Seq<char>,
    value: Seq<char>,
    place: int,
    result: Seq<char>,
    new_place: int,
)
    requires
        keeps_up(element, key, value, place, result, new_place),
        place < element.len(),
        !is_top_level_tag(element, place),
    ensures
        keeps_up(element, key, value, place + 1, result, new_place + 1),
        attribute_lists(element, place) == attribute_lists(element, place + 1),
        attribute_lists(result, new_place) == attribute_lists(result, new_place + 1),
        result.subrange(new_place, new_place + 1) == element.subrange(place, place + 1),
{
    let lists = attribute_lists(element, place + 1);
    let rest_of_result = result.skip(new_place);
    assert(attribute_lists(element, place) == lists);
    lemma_attribute_lists(element, place + 1);
    if lists.len() > 0 {
        lemma_infix_place(element, key, lists[0]);
    }
    lemma_spliced_skips(element, key, value, lists, place, place + 1);
    let tail = spliced(element, key, value, lists, place + 1);
    assert(element.subrange(place, place + 1) =~= seq![element[place]]);
    assert(rest_of_result =~= seq![element[place]] + tail);
    assert(rest_of_result.len() == 1 + tail.len());
    assert(result[new_place] == rest_of_result[0]);
    assert(result.skip(new_place + 1) =~= rest_of_result.skip(1));
    assert(rest_of_result.skip(1) =~= tail);
    lemma_no_tag_appears(element, key, value, place, result, new_place);
    assert(result.subrange(new_place, new_place + 1) =~= seq![element[place]]);
}

/// the tags from one place on have the attribute once it has been inserted
proof fn lemma_tags_have_attribute(
    element: Seq<char>,
    key: Seq<char>,
    value: Seq<char>,
    place: int,
    result: Seq<char>,
    new_place: int,
)
    requires
        is_name(key),
        !value.contains('>'),
        keeps_up(element, key, value, place, result, new_place),
    ensures
        attribute_lists(result, new_place).len() == attribute_lists(element, place).len(),
        forall|i: int|
            0 <= i < attribute_lists(result, new_place).len() ==> value_end(
                result,
                key,
                #[trigger] attribute_lists(result, new_place)[i],
            ) is Some,
    decreases element.len() - place,
{
    if place >= element.len() {
        assert(result.skip(new_place) =~= element.skip(place));
        assert(result.skip(new_place).len() == 0);
    } else if is_top_level_tag(element, place) {
        let (end, new_end) = lemma_past_tag(element, key, value, place, result, new_place);
        lemma_tags_have_attribute(element, key, value, end + 1, result, new_end + 1);
        let new_lists = attribute_lists(result, new_place);
        let new_others = attribute_lists(result, new_end + 1);
        assert forall|i: int| 0 <= i < new_lists.len() implies value_end(
            result,
            key,
            #[trigger] new_lists[i],
        ) is Some by {
            if i > 0 {
                assert(new_lists[i] == new_others[i - 1]);
            }
        }
    } else {
        lemma_past_other(element, key, value, place, result, new_place);
        lemma_tags_have_attribute(element, key, value, place + 1, result, new_place + 1);
    }
}

/// the tags from one place on take one value after another as they take both at once
#[verifier::spinoff_prover]
proof fn lemma_tags_take_both(
    element: Seq<char>,
    key: Seq<char>,
    value: Seq<char>,
    after: Seq<char>,
    place: int,
    result: Seq<char>,
    new_place: int,
)
    requires
        is_name(key),
        !value.contains('>'),
        keeps_up(element, key, value, place, result, new_place),
        forall|i: int|
            0 <= i < attribute_lists(element, place).len() ==> can_be_quoted(
                element,
                key,
                value,
                #[trigger] attribute_lists(element, place)[i],
            ),
    ensures
        spliced(result, key, after, attribute_lists(result, new_place), new_place) == spliced(
            element,
            key,
            value + " "@ + after,
            attribute_lists(element, place),
            place,
        ),
    decreases element.len() - place,
{
    let lists = attribute_lists(element, place);
    let new_lists = attribute_lists(result, new_place);
    let both = value + " "@ + after;
    if place >= element.len() {
        assert(result.skip(new_place) =~= element.skip(place));
        assert(result.skip(new_place).len() == 0);
    } else if is_top_level_tag(element, place) {
        let (end, new_end) = lemma_past_tag(element, key, value, place, result, new_place);
        let others = attribute_lists(element, end + 1);
        let new_others = attribute_lists(result, new_end + 1);
        assert forall|i: int| 0 <= i < others.len() implies can_be_quoted(
            element,
            key,
            value,
            #[trigger] others[i],
        ) by {
            assert(lists[i + 1] == others[i]);
        }
        lemma_tags_take_both(element, key, value, after, end + 1, result, new_end + 1);
        lemma_attribute_lists(element, end + 1);
        lemma_attribute_lists(result, new_end + 1);
        assert(lists.drop_first() =~= others);
        assert(new_lists.drop_first() =~= new_others);
        assert(lists.len() > 1 ==> lists[1] == others[0]);
        assert(new_lists.len() > 1 ==> new_lists[1] == new_others[0]);
        assert(can_be_quoted(element, key, value, lists[0]));
        lemma_tag_takes_both(
            element,
            key,
            value,
            after,
            place,
            lists,
            end,
            result,
            new_place,
            new_lists,
            new_end,
        );
    } else {
        lemma_past_other(element, key, value, place, result, new_place);
        lemma_tags_take_both(element, key, value, after, place + 1, result, new_place + 1);
        lemma_attribute_lists(element, place + 1);
        lemma_attribute_lists(result, new_place + 1);
        if lists.len() > 0 {
            lemma_infix_place(element, key, lists[0]);
        }
        if new_lists.len() > 0 {
            lemma_infix_place(result, key, new_lists[0]);
        }
        lemma_spliced_skips(element, key, both, lists, place, place + 1);
        lemma_spliced_skips(result, key, after, new_lists, new_place, new_place + 1);
    }
}

/// once an attribute has been inserted, every top-level tag has it, and there are as many tags as
/// before
pub proof fn law_every_tag_has_the_attribute(
    element: Seq<char>,
    key: Seq<char>,
    value: Seq<char>,
)
    requires
        is_name(key),
        !value.contains('>'),
        forall|i: int|
            0 <= i < attribute_lists(element, 0).len() ==> can_be_appended(
                element,
                key,
                value,
                #[trigger] attribute_lists(element, 0)[i],
            ),
    ensures
        with_attribute(element, key, value) matches Ok(result) ==> {
            &&& attribute_lists(result, 0).len() == attribute_lists(element, 0).len()
            &&& forall|i: int|
                0 <= i < attribute_lists(result, 0).len() ==> value_end(
                    result,
                    key,
                    #[trigger] attribute_lists(result, 0)[i],
                ) is Some
        },
{
    if let Ok(result) = with_attribute(element, key, value) {
        assert(result.skip(0) =~= result);
        lemma_tags_have_attribute(element, key, value, 0, result, 0);
    }
}

/// to insert one value and then another is to insert both of them at once: the second goes with the
/// first, and there is never a second attribute of the same key.  the first must not close the quote
/// around the value that it goes with, nor one that was left open before that.
pub proof fn law_values_add_up(
    element: Seq<char>,
    key: Seq<char>,
    first: Seq<char>,
    second: Seq<char>,
)
    requires
        is_name(key),
        !first.contains('>'),
        forall|i: int|
            0 <= i < attribute_lists(element, 0).len() ==> {
                let list = #[trigger] attribute_lists(element, 0)[i];
                can_be_appended(element, key, first, list) && can_be_quoted(
                    element,
                    key,
                    first,
                    list,
                )
            },
    ensures
        with_attribute(element, key, first) matches Ok(result) ==> with_attribute(
            result,
            key,
            second,
        ) == with_attribute(element, key, first + " "@ + second),
{
    if let Ok(result) = with_attribute(element, key, first) {
        assert(result.skip(0) =~= result);
        lemma_tags_have_attribute(element, key, first, 0, result, 0);
        lemma_tags_take_both(element, key, first, second, 0, result, 0);
    }
}

/// a value without quotes and without the end of a tag adds up with any other, in any element
pub proof fn law_plain_values_add_up(
    element: Seq<char>,
    key: Seq<char>,
    first: Seq<char>,
    second: Seq<char>,
)
    requires
        is_name(key),
        !first.contains('>'),
        !first.contains('"'),
        !first.contains('\'') || !element.contains('\''),
    ensures
        with_attribute(element, key, first) matches Ok(result) ==> with_attribute(
            result,
            key,
            second,
        ) == with_attribute(element, key, first + " "@ + second),
{
    assert forall|i: int| 0 <= i < attribute_lists(element, 0).len() implies {
        let list = #[trigger] attribute_lists(element, 0)[i];
        can_be_appended(element, key, first, list) && can_be_quoted(element, key, first, list)
    } by {
        lemma_attribute_lists(element, 0);
        let list = attribute_lists(element, 0)[i];
        let text = list_text(element, list);
        assert forall|quote: char| is_quote(quote) && #[trigger] text.contains(
            quote,
        ) implies !first.contains(quote) by {
            let j = choose|j: int| 0 <= j < text.len() && text[j] == quote;
            assert(element[list.0 + j] == quote);
        }
        if value_end(element, key, list) is Some {
            let at = lemma_end_of_first(text, key, 0);
            lemma_attribute_at(text, at);
            assert(text.contains(text[attribute_at(text, at)->0.value.1]));
            assert forall|quote: char| #[trigger]
                is_left_open(text, key, 0, quote) implies !first.contains(quote) by {
                lemma_left_open(text, key, 0, quote);
            }
        }
    }
    law_values_add_up(element, key, first, second);
}

/// where nothing opens at the start of a line, there are no tags
proof fn lemma_no_lists(text: Seq<char>, from: int)
    requires
        0 <= from,
        forall|i: int|
            from <= i < text.len() && #[trigger] text[i] == '<' ==> 0 < i && text[i - 1] != '\n',
    ensures
        attribute_lists(text, from).len() == 0,
    decreases text.len() - from,
{
    if from < text.len() {
        assert(!is_top_level_tag(text, from));
        lemma_no_lists(text, from + 1);
        assert(attribute_lists(text, from) == attribute_lists(text, from + 1));
    }
}

/// an element that is a single tag, and its one list of attributes
proof fn lemma_single_tag(
    name: Seq<char>,
    list: Seq<char>,
    rest: Seq<char>,
)
    requires
        is_tag_name(name),
        !list.contains('>'),
        list.len() > 0 ==> !is_letter(list[0]),
        is_inside_of_lines(rest),
    ensures
        ({
            let element = "<"@ + name + list + ">"@ + rest;
            let span = (1 + name.len() as int, 1 + name.len() as int + list.len() as int);
            &&& attribute_lists(element, 0) == seq![span]
            &&& list_text(element, span) == list
            &&& element.len() == 2 + name.len() + list.len() + rest.len()
        }),
{
    reveal_strlit("<");
    reveal_strlit(">");
    let element = "<"@ + name + list + ">"@ + rest;
    let a = 1 + name.len() as int;
    let end = a + list.len() as int;
    assert(element[0] == '<');
    assert(element[end] == '>');
    assert forall|i: int| 1 <= i < a implies is_letter(#[trigger] element[i]) by {
        assert(element[i] == name[i - 1]);
    }
    assert forall|i: int| 1 <= i < end implies #[trigger] element[i] != '>' by {
        if i >= a {
            assert(element[i] == list[i - a]);
            assert(list.contains(list[i - a]));
        } else {
            assert(is_letter(element[i]));
        }
    }
    lemma_find_is(element, '>', 1, end);
    if list.len() > 0 {
        assert(element[a] == list[0]);
    }
    lemma_past_letters_is(element, 1, a);
    assert forall|i: int|
        end + 1 <= i < element.len() && #[trigger] element[i] == '<' implies 0 < i && element[i - 1]
        != '\n' by {
        assert(element[i] == rest[i - end - 1]);
        if i > end + 1 {
            assert(element[i - 1] == rest[i - end - 2]);
        }
    }
    lemma_no_lists(element, end + 1);
    assert(is_letter(element[1]));
    assert(is_top_level_tag(element, 0));
    assert(attribute_lists(element, 0) =~= seq![(a, end)]);
    assert(list_text(element, (a, end)) =~= list);
}

/// whether nothing opens at the start of a line in this, which comes after the start of one
pub open spec fn is_inside_of_lines(text: Seq<char>) -> bool {
    forall|i: int| 0 < i < text.len() && #[trigger] text[i] == '<' ==> text[i - 1] != '\n'
}

/// whether this can be what a tag is called
pub open spec fn is_tag_name(name: Seq<char>) -> bool {
    name.len() > 0 && forall|i: int| 0 <= i < name.len() ==> is_letter(#[trigger] name[i])
}

/// a tag at the start of a line that doesn't have the attribute gets it before all others, with a space
/// before it and its value in quotes.  tags that don't start a line stay as they are.
pub proof fn law_new_attributes_come_first(
    name: Seq<char>,
    list: Seq<char>,
    rest: Seq<char>,
    key: Seq<char>,
    value: Seq<char>,
)
    requires
        is_tag_name(name),
        !list.contains('>'),
        list.len() > 0 ==> !is_letter(list[0]),
        is_inside_of_lines(rest),
        forall|i: int| !#[trigger] occurs(list, key, i),
    ensures
        with_attribute("<"@ + name + list + ">"@ + rest, key, value) == Ok::<
            _,
            MapError<Seq<char>>,
        >("<"@ + name + " "@ + key + "=\""@ + value + "\""@ + list + ">"@ + rest),
{
    reveal_strlit("<");
    reveal_strlit(">");
    let element = "<"@ + name + list + ">"@ + rest;
    let span = (1 + name.len() as int, 1 + name.len() as int + list.len() as int);
    lemma_single_tag(name, list, rest);
    if value_end(element, key, span) is Some {
        let at = lemma_end_of_first(list, key, 0);
        lemma_attribute_at(list, at);
        assert(occurs(list, key, at));
    }
    let lists = attribute_lists(element, 0);
    assert(lists.drop_first() =~= Seq::<(int, int)>::empty());
    assert(spliced(element, key, value, lists.drop_first(), span.0) == element.skip(span.0));
    assert(spliced(element, key, value, lists, 0) =~= "<"@ + name + " "@ + key + "=\""@ + value
        + "\""@ + list + ">"@ + rest);
}

/// a tag that has the attribute as its first gets the value after the one that is there, with a space
/// between them
pub proof fn law_values_go_with_the_first(
    name: Seq<char>,
    key: Seq<char>,
    old_value: Seq<char>,
    list: Seq<char>,
    rest: Seq<char>,
    value: Seq<char>,
)
    requires
        is_tag_name(name),
        is_name(key),
        !old_value.contains('"') && !old_value.contains('>'),
        !list.contains('>'),
        is_inside_of_lines(rest),
    ensures
        with_attribute(
            "<"@ + name + (" "@ + key + "=\""@ + old_value + "\""@ + list) + ">"@ + rest,
            key,
            value,
        ) == Ok::<_, MapError<Seq<char>>>(
            "<"@ + name + (" "@ + key + "=\""@ + (old_value + " "@ + value) + "\""@ + list) + ">"@
                + rest,
        ),
{
    reveal_strlit("<");
    reveal_strlit(">");
    reveal_strlit(" ");
    reveal_strlit("=\"");
    reveal_strlit("\"");
    let insert = " "@ + key + "=\""@ + old_value + "\""@;
    let text = insert + list;
    assert(text =~= " "@ + key + "=\""@ + old_value + "\""@ + list);
    assert forall|i: int| 0 <= i < text.len() implies #[trigger] text[i] != '>' by {
        let k = key.len() as int;
        if 0 < i <= k {
            assert(text[i] == key[i - 1]);
        } else if k + 3 <= i < k + 3 + old_value.len() {
            assert(text[i] == old_value[i - k - 3]);
            assert(old_value.contains(old_value[i - k - 3]));
        } else if i >= insert.len() {
            assert(text[i] == list[i - insert.len()]);
            assert(list.contains(list[i - insert.len()]));
        }
    }
    assert(text[0] == ' ');
    lemma_single_tag(name, text, rest);
    lemma_new_value(list, key, old_value);
    let element = "<"@ + name + text + ">"@ + rest;
    let span = (1 + name.len() as int, 1 + name.len() as int + text.len() as int);
    let lists = attribute_lists(element, 0);
    let place = span.0 + insert.len() - 1;
    assert(value_end(element, key, span) == Some(place));
    assert(lists.drop_first() =~= Seq::<(int, int)>::empty());
    assert(spliced(element, key, value, lists.drop_first(), place) == element.skip(place));
    assert(spliced(element, key, value, lists, 0) =~= "<"@ + name + (" "@ + key + "=\""@ + (
    old_value + " "@ + value) + "\""@ + list) + ">"@ + rest);
}

/// what stands before a text moves everything that is found in it
proof fn lemma_runs_move(before: Seq<char>, text: Seq<char>, from: int)
    requires
        0 <= from <= text.len(),
    ensures
        past_name(before + text, before.len() + from) == before.len() + past_name(text, from),
        past_white_space(before + text, before.len() + from) == before.len() + past_white_space(
            text,
            from,
        ),
{
    let all = before + text;
    let n = before.len() as int;
    assert forall|i: int| 0 <= i < text.len() implies #[trigger] all[n + i] == text[i] by {}
    lemma_past_name(text, from);
    let name_end = past_name(text, from);
    assert forall|i: int| n + from <= i < n + name_end implies is_name_char(#[trigger] all[i]) by {
        assert(all[n + (i - n)] == text[i - n]);
    }
    if name_end < text.len() {
        assert(all[n + name_end] == text[name_end]);
    }
    lemma_past_name_is(all, n + from, n + name_end);
    lemma_past_white_space(text, from);
    let end = past_white_space(text, from);
    assert forall|i: int| n + from <= i < n + end implies is_white_space(#[trigger] all[i]) by {
        assert(all[n + (i - n)] == text[i - n]);
    }
    if end < text.len() {
        assert(all[n + end] == text[end]);
    }
    lemma_past_white_space_is(all, n + from, n + end);
}

/// an attribute, so many places farther on
spec fn moved(attribute: Attribute, n: int) -> Attribute {
    Attribute {
        name: (attribute.name.0 + n, attribute.name.1 + n),
        value: (attribute.value.0 + n, attribute.value.1 + n),
    }
}

proof fn lemma_attribute_moves(before: Seq<char>, text: Seq<char>, at: int)
    requires
        0 <= at < text.len(),
    ensures
        match attribute_at(text, at) {
            Some(attribute) => attribute_at(before + text, before.len() + at) == Some(
                moved(attribute, before.len() as int),
            ),
            None => attribute_at(before + text, before.len() + at) is None,
        },
{
    let all = before + text;
    let n = before.len() as int;
    lemma_runs_move(before, text, at);
    lemma_past_name(text, at);
    let name_end = past_name(text, at);
    lemma_runs_move(before, text, name_end);
    lemma_past_white_space(text, name_end);
    let equals = past_white_space(text, name_end);
    if equals < text.len() {
        assert(all[n + equals] == text[equals]);
        lemma_runs_move(before, text, equals + 1);
        lemma_past_white_space(text, equals + 1);
        let open = past_white_space(text, equals + 1);
        if open < text.len() {
            assert(all[n + open] == text[open]);
            let quote = text[open];
            lemma_find(text, quote, open + 1);
            let close = find(text, quote, open + 1);
            assert forall|i: int| n + open + 1 <= i < n + close implies #[trigger] all[i] != quote by {
                assert(all[i] == text[i - n]);
            }
            if close < text.len() {
                assert(all[n + close] == text[close]);
            }
            lemma_find_is(all, quote, n + open + 1, n + close);
        }
    }
}

proof fn lemma_first_value_moves(before: Seq<char>, text: Seq<char>, from: int, key: Seq<char>)
    requires
        0 <= from <= text.len(),
    ensures
        match end_of_first(text, attributes(text, from), key) {
            Some(end) => end_of_first(
                before + text,
                attributes(before + text, before.len() + from),
                key,
            ) == Some(before.len() + end),
            None => end_of_first(
                before + text,
                attributes(before + text, before.len() + from),
                key,
            ) is None,
        },
    decreases text.len() - from,
{
    let all = before + text;
    let n = before.len() as int;
    if from < text.len() {
        lemma_attribute_moves(before, text, from);
        match attribute_at(text, from) {
            Some(attribute) => {
                lemma_attribute_at(text, from);
                let next = attribute.value.1 + 1;
                lemma_first_value_moves(before, text, next, key);
                let found = attributes(text, from);
                assert(found =~= seq![attribute] + attributes(text, next));
                assert(found.drop_first() =~= attributes(text, next));
                let there = moved(attribute, n);
                let found_there = attributes(all, n + from);
                assert(found_there =~= seq![there] + attributes(all, n + next));
                assert(found_there.drop_first() =~= attributes(all, n + next));
                assert(all.subrange(there.name.0, there.name.1) =~= text.subrange(
                    attribute.name.0,
                    attribute.name.1,
                ));
            },
            None => {
                lemma_first_value_moves(before, text, from + 1, key);
                assert(attributes(text, from) == attributes(text, from + 1));
                assert(attributes(all, n + from) == attributes(all, n + from + 1));
            },
        }
    }
}

/// it makes no difference to where a value goes whether another attribute comes before the one that it
/// goes with
pub proof fn law_other_attributes_make_no_difference(
    name: Seq<char>,
    other: Seq<char>,
    other_value: Seq<char>,
    list: Seq<char>,
    rest: Seq<char>,
    key: Seq<char>,
    value: Seq<char>,
)
    requires
        is_tag_name(name),
        is_name(other),
        other != key,
        !other_value.contains('"') && !other_value.contains('>'),
        !list.contains('>'),
        list.len() > 0 ==> !is_letter(list[0]),
        is_inside_of_lines(rest),
        end_of_first(list, attributes(list, 0), key) is Some,
    ensures
        ({
            let end = end_of_first(list, attributes(list, 0), key)->0;
            let longer = list.take(end) + " "@ + value + list.skip(end);
            let before = " "@ + other + "=\""@ + other_value + "\""@;
            &&& 0 <= end < list.len()
            &&& with_attribute("<"@ + name + list + ">"@ + rest, key, value) == Ok::<
                _,
                MapError<Seq<char>>,
            >("<"@ + name + longer + ">"@ + rest)
            &&& with_attribute("<"@ + name + (before + list) + ">"@ + rest, key, value) == Ok::<
                _,
                MapError<Seq<char>>,
            >("<"@ + name + (before + longer) + ">"@ + rest)
        }),
{
    reveal_strlit(" ");
    reveal_strlit("=\"");
    reveal_strlit("\"");
    let before = " "@ + other + "=\""@ + other_value + "\""@;
    let all = before + list;
    let end = end_of_first(list, attributes(list, 0), key)->0;
    let at = lemma_end_of_first(list, key, 0);
    lemma_attribute_at(list, at);
    // the other attribute is the first, and the rest are found after it
    let k = other.len() as int;
    let v = other_value.len() as int;
    let n = before.len() as int;
    assert(n == k + v + 4);
    assert(all[0] == ' ');
    assert(past_name(all, 0) == 0);
    assert(attribute_at(all, 0) is None);
    assert forall|i: int| 1 <= i < 1 + k implies is_name_char(#[trigger] all[i]) by {
        assert(all[i] == other[i - 1]);
    }
    assert(all[1 + k] == '=');
    assert(all[2 + k] == '"');
    assert(all[n - 1] == '"');
    lemma_past_name_is(all, 1, 1 + k);
    lemma_past_white_space_is(all, 1 + k, 1 + k);
    lemma_past_white_space_is(all, 2 + k, 2 + k);
    assert forall|i: int| 3 + k <= i < n - 1 implies #[trigger] all[i] != '"' by {
        assert(all[i] == other_value[i - 3 - k]);
        assert(other_value.contains(other_value[i - 3 - k]));
    }
    lemma_find_is(all, '"', 3 + k, n - 1);
    let first = Attribute { name: (1, 1 + k), value: (3 + k, n - 1) };
    assert(attribute_at(all, 1) == Some(first));
    assert(all.subrange(1, 1 + k) =~= other);
    assert(attributes(all, 0) == attributes(all, 1));
    assert(attributes(all, 1) =~= seq![first] + attributes(all, n));
    assert(attributes(all, 1).drop_first() =~= attributes(all, n));
    lemma_first_value_moves(before, list, 0, key);
    assert(end_of_first(all, attributes(all, 0), key) == Some(n + end));
    // and there is nothing in it that would end the tag
    assert forall|i: int| 0 <= i < all.len() implies #[trigger] all[i] != '>' by {
        if 0 < i <= k {
            assert(all[i] == other[i - 1]);
        } else if k + 3 <= i < n - 1 {
            assert(all[i] == other_value[i - k - 3]);
            assert(other_value.contains(other_value[i - k - 3]));
        } else if i >= n {
            assert(all[i] == list[i - n]);
            assert(list.contains(list[i - n]));
        }
    }
    let longer = list.take(end) + " "@ + value + list.skip(end);
    lemma_value_goes_there(name, list, rest, key, value, end);
    lemma_value_goes_there(name, all, rest, key, value, n + end);
    assert(all.take(n + end) + " "@ + value + all.skip(n + end) =~= before + longer);
}

proof fn lemma_value_goes_there(
    name: Seq<char>,
    list: Seq<char>,
    rest: Seq<char>,
    key: Seq<char>,
    value: Seq<char>,
    end: int,
)
    requires
        is_tag_name(name),
        !list.contains('>'),
        list.len() > 0 ==> !is_letter(list[0]),
        is_inside_of_lines(rest),
        0 <= end <= list.len(),
        end_of_first(list, attributes(list, 0), key) == Some(end),
    ensures
        with_attribute("<"@ + name + list + ">"@ + rest, key, value) == Ok::<
            _,
            MapError<Seq<char>>,
        >("<"@ + name + (list.take(end) + " "@ + value + list.skip(end)) + ">"@ + rest),
{
    reveal_strlit("<");
    reveal_strlit(">");
    let element = "<"@ + name + list + ">"@ + rest;
    let span = (1 + name.len() as int, 1 + name.len() as int + list.len() as int);
    lemma_single_tag(name, list, rest);
    let lists = attribute_lists(element, 0);
    let place = span.0 + end;
    assert(value_end(element, key, span) == Some(place));
    assert(lists.drop_first() =~= Seq::<(int, int)>::empty());
    assert(spliced(element, key, value, lists.drop_first(), place) == element.skip(place));
    assert(spliced(element, key, value, lists, 0) =~= "<"@ + name + (list.take(end) + " "@ + value
        + list.skip(end)) + ">"@ + rest);
}

/// where no tag starts a line, there is none to give an attribute to
pub proof fn law_attributes_need_a_tag(text: Seq<char>, key: Seq<char>, value: Seq<char>)
    requires
        is_inside_of_lines(text),
        text.len() > 0 ==> text[0] != '<',
    ensures
        with_attribute(text, key, value) == Err::<Seq<char>, _>(
            MapError::NoTopLevelTag { element: text },
        ),
{
    lemma_no_lists(text, 0);
}

/// whether there is nothing but white space in the text
pub open spec fn is_all_white_space(text: Seq<char>) -> bool {
    forall|i: int| 0 <= i < text.len() ==> is_white_space(#[trigger] text[i])
}

/// it makes no difference to where a value goes whether the one that it goes with is in double or in
/// single quotes, nor how much white space there is before the attribute and around its equals sign
pub proof fn law_quotes_and_spaces_make_no_difference(
    name: Seq<char>,
    gaps: (Seq<char>, Seq<char>, Seq<char>),
    key: Seq<char>,
    quote: char,
    old_value: Seq<char>,
    list: Seq<char>,
    rest: Seq<char>,
    value: Seq<char>,
)
    requires
        is_tag_name(name),
        is_all_white_space(gaps.0) && gaps.0.len() > 0,
        is_all_white_space(gaps.1) && is_all_white_space(gaps.2),
        is_name(key),
        quote == '"' || quote == '\'',
        !old_value.contains(quote) && !old_value.contains('>'),
        !list.contains('>'),
        is_inside_of_lines(rest),
    ensures
        ({
            let start = gaps.0 + key + gaps.1 + seq!['='] + gaps.2 + seq![quote] + old_value;
            let end = seq![quote] + list;
            with_attribute("<"@ + name + (start + end) + ">"@ + rest, key, value) == Ok::<
                _,
                MapError<Seq<char>>,
            >("<"@ + name + (start + " "@ + value + end) + ">"@ + rest)
        }),
{
    let start = gaps.0 + key + gaps.1 + seq!['='] + gaps.2 + seq![quote] + old_value;
    let end = seq![quote] + list;
    let text = start + end;
    let a = gaps.0.len() as int;
    let b = a + key.len();
    let c = b + gaps.1.len();
    let d = c + 1 + gaps.2.len();
    let e = d + 1 + old_value.len();
    assert(start.len() == e);
    assert forall|i: int| 0 <= i < a implies is_white_space(#[trigger] text[i]) by {
        assert(text[i] == gaps.0[i]);
    }
    assert forall|i: int| a <= i < b implies is_name_char(#[trigger] text[i]) && text[i] != '>' by {
        assert(text[i] == key[i - a]);
    }
    assert forall|i: int| b <= i < c implies is_white_space(#[trigger] text[i]) by {
        assert(text[i] == gaps.1[i - b]);
    }
    assert(text[c] == '=');
    assert forall|i: int| c + 1 <= i < d implies is_white_space(#[trigger] text[i]) by {
        assert(text[i] == gaps.2[i - c - 1]);
    }
    assert(text[d] == quote);
    assert forall|i: int| d + 1 <= i < e implies #[trigger] text[i] != quote && text[i] != '>' by {
        assert(text[i] == old_value[i - d - 1]);
        assert(old_value.contains(old_value[i - d - 1]));
    }
    assert(text[e] == quote);
    assert forall|i: int| e < i < text.len() implies #[trigger] text[i] != '>' by {
        assert(text[i] == list[i - e - 1]);
        assert(list.contains(list[i - e - 1]));
    }
    assert(!text.contains('>')) by {
        if text.contains('>') {
            let i = choose|i: int| 0 <= i < text.len() && text[i] == '>';
            assert(text[i] == '>');
        }
    }
    lemma_past_name_is(text, a, b);
    lemma_past_white_space_is(text, b, c);
    lemma_past_white_space_is(text, c + 1, d);
    lemma_find_is(text, quote, d + 1, e);
    let first = Attribute { name: (a, b), value: (d + 1, e) };
    assert(attribute_at(text, a) == Some(first));
    lemma_white_space_has_no_attributes(text, 0, a);
    assert(text.subrange(a, b) =~= key);
    assert(attributes(text, a)[0] == first);
    assert(end_of_first(text, attributes(text, 0), key) == Some(e));
    lemma_value_goes_there(name, text, rest, key, value, e);
    assert(text.take(e) =~= start);
    assert(text.skip(e) =~= end);
}

proof fn lemma_white_space_has_no_attributes(text: Seq<char>, from: int, to: int)
    requires
        0 <= from <= to <= text.len(),
        forall|i: int| from <= i < to ==> is_white_space(#[trigger] text[i]),
    ensures
        attributes(text, from) == attributes(text, to),
    decreases to - from,
{
    if from < to {
        assert(is_white_space(text[from]));
        assert(past_name(text, from) == from);
        lemma_white_space_has_no_attributes(text, from + 1, to);
    }
}

} // verus!
