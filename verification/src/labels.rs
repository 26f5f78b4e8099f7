//! What labels say.

use crate::content::{abbr_view, replacements_view, Case, Replacement};
use crate::markup::{sanitize_XML, xml_escaped};
use crate::outside::{
    lower_case, replace, replaced, title_case, to_lowercase, to_titlecase,
    to_uppercase, upper_case,
};
use crate::text::{byte_offset, cut};
use vstd::prelude::*;
use vstd::string::{StrSliceExecFns, StringExecFns};
use vstd::utf8::{encode_scalar, encode_utf8};

verus! {

/// whether the first letter of the text can be told from the rest: it has to be there, and to be
/// a single byte
pub open spec fn has_initial(text: Seq<char>) -> bool {
    text.len() > 0 && (text[0] as u32) < 128
}

/// the text with its letters in the given case, if they can be
pub open spec fn in_case(text: Seq<char>, case: Option<Case>) -> Option<Seq<char>> {
    match case {
        Some(Case::Upper) => Some(upper_case(text)),
        Some(Case::Lower) => Some(lower_case(text)),
        Some(Case::Sentence) => if has_initial(text) {
            Some(upper_case(text.take(1)) + lower_case(text.skip(1)))
        } else {
            None
        },
        Some(Case::Title) => Some(title_case(text)),
        None => Some(text),
    }
}

/// the text after one replacement after another
pub open spec fn abbreviated(text: Seq<char>, abbr: Seq<Replacement<Seq<char>>>) -> Seq<char>
    decreases abbr.len(),
{
    if abbr.len() == 0 {
        text
    } else {
        replaced(abbreviated(text, abbr.drop_last()), abbr.last().from, abbr.last().to)
    }
}

/// the text as it goes into the document
pub open spec fn finished(text: Seq<char>, abbr: Option<Seq<Replacement<Seq<char>>>>) -> Seq<
    char,
> {
    xml_escaped(
        match abbr {
            Some(abbr) => abbreviated(text, abbr),
            None => text,
        },
    )
}

/// what a label says of a text
pub open spec fn label(
    text: Seq<char>,
    case: Option<Case>,
    abbr: Option<Seq<Replacement<Seq<char>>>>,
) -> Option<Seq<char>> {
    match in_case(text, case) {
        Some(text) => Some(finished(text, abbr)),
        None => None,
    }
}

/// a label that is changed in no way says what the text says, escaped for the document
pub proof fn law_plain_labels_say_the_text(text: Seq<char>)
    ensures
        label(text, None, None) == Some(xml_escaped(text)),
        label(text, None, Some(Seq::empty())) == Some(xml_escaped(text)),
{
}

/// make the replacements and add necessary escape sequences, in text that has been set in its case
pub fn finish_label(text: &str, abbr: &Option<Vec<Replacement<String>>>) -> (s: String)
    ensures
        s@ == finished(text@, abbr_view(*abbr)),
{
    match abbr {
        Some(abbr) => {
            let ghost changes = replacements_view(abbr@);
            let mut new_text = text.to_owned();
            assert(changes.take(0) =~= Seq::empty());
            for i in 0..abbr.len()
                invariant
                    changes == replacements_view(abbr@),
                    new_text@ == abbreviated(text@, changes.take(i as int)),
            {
                assert(changes.take(i + 1).drop_last() =~= changes.take(i as int));
                assert(changes.take(i + 1).last() == abbr@[i as int]@);
                new_text = replace(new_text.as_str(), abbr[i].from.as_str(), abbr[i].to.as_str());
            }
            assert(changes.take(abbr@.len() as int) =~= changes);
            sanitize_XML(new_text.as_str())
        },
        None => sanitize_XML(text),
    }
}

/// modify the case of the text if desired, and if it is possible
pub fn set_case(text: &str, case: Option<Case>) -> (s: Option<String>)
    ensures
        match s {
            Some(s) => in_case(text@, case) == Some(s@),
            None => in_case(text@, case) is None,
        },
        case != Some(Case::Sentence) || has_initial(text@) ==> s is Some,
{
    match case {
        Some(Case::Upper) => Some(to_uppercase(text)),
        Some(Case::Lower) => Some(to_lowercase(text)),
        Some(Case::Sentence) => {
            if text.is_empty() || (text.get_char(0) as u32) >= 128 {
                return None;
            }
            proof {
                assert(text@.take(1) =~= seq![text@[0]]);
                assert(text@.take(1).drop_first() =~= Seq::empty());
                reveal_with_fuel(encode_utf8, 2);
                assert(encode_utf8(text@.take(1)) =~= encode_scalar(text@[0] as u32));
                assert(byte_offset(text@, 1) == 1);
            }
            let (initial, rest) = cut(text, 1, Ghost(1));
            let mut s = to_uppercase(initial);
            s.append(to_lowercase(rest).as_str());
            Some(s)
        },
        Some(Case::Title) => Some(to_titlecase(text)),
        None => Some(text.to_owned()),
    }
}

/// decide what a label should say of a text, if that is possible
pub fn label_text(
    text: &str,
    case: Option<Case>,
    abbr: &Option<Vec<Replacement<String>>>,
) -> (s: Option<String>)
    ensures
        match s {
            Some(s) => label(text@, case, abbr_view(*abbr)) == Some(s@),
            None => label(text@, case, abbr_view(*abbr)) is None,
        },
        case != Some(Case::Sentence) || has_initial(text@) ==> s is Some,
{
    match set_case(text, case) {
        // add the escape sequences after setting the case
        Some(text) => Some(finish_label(text.as_str(), abbr)),
        None => None,
    }
}

/// the case of a label is set before anything else is done to its text: all of it in upper case, or in
/// lower case, or its first letter in the one and the rest in the other, or in title case
pub proof fn law_the_case_is_set_first(
    text: Seq<char>,
    abbr: Option<Seq<Replacement<Seq<char>>>>,
)
    ensures
        label(text, Some(Case::Upper), abbr) == label(upper_case(text), None, abbr),
        label(text, Some(Case::Lower), abbr) == label(lower_case(text), None, abbr),
        label(text, Some(Case::Title), abbr) == label(title_case(text), None, abbr),
        text.len() > 0 && (text[0] as u32) < 128 ==> label(text, Some(Case::Sentence), abbr)
            == label(upper_case(text.take(1)) + lower_case(text.skip(1)), None, abbr),
{
}

/// the replacements are made one after another, each in what the ones before it have left, and what is
/// written is escaped only when they have all been made
pub proof fn law_replacements_are_made_in_order(
    text: Seq<char>,
    first: Replacement<Seq<char>>,
    others: Seq<Replacement<Seq<char>>>,
)
    ensures
        label(text, None, Some(seq![first] + others)) == label(
            replaced(text, first.from, first.to),
            None,
            Some(others),
        ),
{
    lemma_first_replacement(text, first, others);
}

proof fn lemma_first_replacement(
    text: Seq<char>,
    first: Replacement<Seq<char>>,
    others: Seq<Replacement<Seq<char>>>,
)
    ensures
        abbreviated(text, seq![first] + others) == abbreviated(
            replaced(text, first.from, first.to),
            others,
        ),
    decreases others.len(),
{
    let all = seq![first] + others;
    if others.len() == 0 {
        assert(all.drop_last() =~= Seq::empty());
        assert(abbreviated(text, all.drop_last()) == text);
        assert(all.last() == first);
    } else {
        assert(all.drop_last() =~= seq![first] + others.drop_last());
        lemma_first_replacement(text, first, others.drop_last());
    }
}

} // verus!
