use mapmaker::content::{Case, Replacement};
use mapmaker::labels::{finish_label, label_text, set_case};

fn replacement(from: &str, to: &str) -> Replacement<String> {
    Replacement { from: from.to_string(), to: to.to_string() }
}

#[test]
fn letters_are_set_in_their_case() {
    assert_eq!(set_case("Straße nach Rom", None).unwrap(), "Straße nach Rom");
    assert_eq!(set_case("Straße nach Rom", Some(Case::Upper)).unwrap(), "STRASSE NACH ROM");
    assert_eq!(set_case("Straße NACH Rom", Some(Case::Lower)).unwrap(), "straße nach rom");
    assert_eq!(set_case("the ROAD to rome", Some(Case::Sentence)).unwrap(), "The road to rome");
    assert_eq!(set_case("the road to rome", Some(Case::Title)).unwrap(), "The Road to Rome");
    assert_eq!(set_case("", Some(Case::Upper)).unwrap(), "");
    assert_eq!(set_case("x", Some(Case::Sentence)).unwrap(), "X");
    assert_eq!(set_case("1ST", Some(Case::Sentence)).unwrap(), "1st");
}

#[test]
fn some_text_has_no_first_letter_to_raise() {
    assert!(set_case("", Some(Case::Sentence)).is_none());
    assert!(set_case("état", Some(Case::Sentence)).is_none());
    assert!(label_text("état", Some(Case::Sentence), &None).is_none());
}

#[test]
fn replacements_are_made_in_turn() {
    let abbr = Some(vec![replacement("Saint", "St."), replacement("St. L", "L"), replacement("a", "aa")]);
    assert_eq!(finish_label("Saint Paul", &abbr), "St. Paaul");
    assert_eq!(finish_label("Saint Louis", &abbr), "Louis");
    assert_eq!(finish_label("aa", &Some(vec![replacement("aa", "a")])), "a");
    assert_eq!(finish_label("aaa", &Some(vec![replacement("aa", "b")])), "ba");
    assert_eq!(finish_label("ab", &Some(vec![replacement("", "-")])), "-a-b-");
    assert_eq!(finish_label("ab", &Some(vec![])), "ab");
}

#[test]
fn labels_are_escaped_last() {
    assert_eq!(label_text("R&D", None, &None).unwrap(), "R&amp;D");
    assert_eq!(
        label_text("nuts & bolts", Some(Case::Upper), &Some(vec![replacement(" & ", "<&>")])).unwrap(),
        "NUTS&lt;&amp;&gt;BOLTS"
    );
    // replacements apply to the text as it has been set
    assert_eq!(
        label_text("mount Ida", Some(Case::Title), &Some(vec![replacement("Mount", "Mt.")])).unwrap(),
        "Mt. Ida"
    );
}
