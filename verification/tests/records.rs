use mapmaker::errors::MapError;
use mapmaker::number::Number;
use mapmaker::records::{matches_all, Field, FieldValue, Filter, Numeral, Record};
use shapefile::dbase::FieldType;

fn number(x: f64) -> Number {
    Number { bits: x.to_bits() }
}

fn numeric(x: f64) -> FieldValue<String> {
    FieldValue::Numeric(Some(Numeral { value: number(x), text: x.to_string() }))
}

fn text(s: &str) -> FieldValue<String> {
    FieldValue::Character(Some(s.to_string()))
}

fn record() -> Record {
    let fields = vec![
        ("NAME", text("Albany")),
        ("NOTE", FieldValue::Character(None)),
        ("POP", numeric(97_856.)),
        ("AREA", FieldValue::Numeric(None)),
        ("RATIO", FieldValue::Float(Some(number(0.5)))),
        ("RATE", FieldValue::Float(None)),
        ("FLAG", FieldValue::Logical),
        ("COUNT", FieldValue::Integer),
    ];
    Record {
        fields: fields
            .into_iter()
            .map(|(name, value)| Field { name: name.to_string(), value })
            .collect(),
    }
}

fn one_of(key: &str, values: &[&str]) -> Filter {
    Filter::OneOf {
        key: key.to_string(),
        valid_values: values.iter().map(|s| s.to_string()).collect(),
    }
}

fn greater_than(key: &str, cutoff: f64) -> Filter {
    Filter::GreaterThan { key: key.to_string(), cutoff: number(cutoff) }
}

fn not(filter: Filter) -> Filter {
    Filter::Not { filter: Box::new(filter) }
}

#[test]
fn fields_are_found_by_name() {
    let record = record();
    match record.get("NAME") {
        Some(FieldValue::Character(Some(name))) => assert_eq!(name, "Albany"),
        other => panic!("{:?}", other),
    }
    assert!(record.get("name").is_none());
}

#[test]
fn field_types_have_names() {
    let cases: Vec<(FieldValue<String>, &str)> = vec![
        (FieldValue::Character(None), "dbase::Character"),
        (FieldValue::Numeric(None), "dbase::Numeric"),
        (FieldValue::Logical, "dbase::Logical"),
        (FieldValue::Date, "dbase::Date"),
        (FieldValue::Float(None), "dbase::Float"),
        (FieldValue::Integer, "dbase::Integer"),
        (FieldValue::Currency, "dbase::Currency"),
        (FieldValue::DateTime, "dbase::DateTime"),
        (FieldValue::Double, "dbase::Double"),
        (FieldValue::Memo, "dbase::Memo"),
    ];
    for (value, name) in cases {
        assert_eq!(value.field_type(), name);
    }
}

#[test]
fn field_types_have_the_names_that_dbase_gives_them() {
    let cases: Vec<(FieldType, FieldValue<String>)> = vec![
        (FieldType::Character, FieldValue::Character(None)),
        (FieldType::Numeric, FieldValue::Numeric(None)),
        (FieldType::Logical, FieldValue::Logical),
        (FieldType::Date, FieldValue::Date),
        (FieldType::Float, FieldValue::Float(None)),
        (FieldType::Integer, FieldValue::Integer),
        (FieldType::Currency, FieldValue::Currency),
        (FieldType::DateTime, FieldValue::DateTime),
        (FieldType::Double, FieldValue::Double),
        (FieldType::Memo, FieldValue::Memo),
    ];
    for (kind, value) in cases {
        assert_eq!(kind.to_string(), value.field_type());
    }
}

#[test]
fn values_are_looked_up_in_lists() {
    let record = record();
    assert!(one_of("NAME", &["Troy", "Albany"]).matches(&record).unwrap());
    assert!(!one_of("NAME", &["Troy"]).matches(&record).unwrap());
    assert!(!one_of("NAME", &[]).matches(&record).unwrap());
    assert!(one_of("POP", &["97856"]).matches(&record).unwrap());
    assert!(!one_of("POP", &["97856.0"]).matches(&record).unwrap());
    assert!(!one_of("NOTE", &[""]).matches(&record).unwrap());
    assert!(!one_of("AREA", &["0"]).matches(&record).unwrap());
}

#[test]
fn values_are_compared_to_thresholds() {
    let record = record();
    assert!(greater_than("POP", 97_855.9).matches(&record).unwrap());
    assert!(!greater_than("POP", 97_856.).matches(&record).unwrap());
    assert!(greater_than("RATIO", 0.).matches(&record).unwrap());
    assert!(!greater_than("RATIO", f64::NAN).matches(&record).unwrap());
    assert!(!greater_than("RATE", -1.).matches(&record).unwrap());
}

#[test]
fn filters_are_inverted_and_combined() {
    let record = record();
    assert!(!not(one_of("NAME", &["Albany"])).matches(&record).unwrap());
    assert!(not(not(one_of("NAME", &["Albany"]))).matches(&record).unwrap());
    let either = |filters| Filter::Either { filters };
    assert!(!either(vec![]).matches(&record).unwrap());
    assert!(either(vec![one_of("NAME", &["Troy"]), greater_than("POP", 0.)]).matches(&record).unwrap());
    assert!(!either(vec![one_of("NAME", &["Troy"]), greater_than("POP", 1e9)]).matches(&record).unwrap());
    // what comes after a match doesn't matter, and what comes before does
    assert!(either(vec![one_of("NAME", &["Albany"]), one_of("MAYOR", &[])]).matches(&record).unwrap());
    assert!(either(vec![one_of("MAYOR", &[]), one_of("NAME", &["Albany"])]).matches(&record).is_err());
}

#[test]
fn all_of_a_list_of_filters_have_to_match() {
    let record = record();
    assert!(matches_all(&vec![], &record).unwrap());
    assert!(matches_all(&vec![one_of("NAME", &["Albany"]), greater_than("POP", 0.)], &record).unwrap());
    assert!(!matches_all(&vec![one_of("NAME", &["Troy"]), one_of("MAYOR", &[])], &record).unwrap());
    assert!(matches_all(&vec![one_of("NAME", &["Albany"]), one_of("MAYOR", &[])], &record).is_err());
}

#[test]
fn some_fields_cannot_be_filtered_on() {
    let record = record();
    match not(one_of("MAYOR", &[])).matches(&record) {
        Err(MapError::FilterFieldMissing { key }) => assert_eq!(key, "MAYOR"),
        other => panic!("{:?}", other),
    }
    match greater_than("MAYOR", 0.).matches(&record) {
        Err(MapError::FilterFieldMissing { key }) => assert_eq!(key, "MAYOR"),
        other => panic!("{:?}", other),
    }
    for key in ["FLAG", "RATIO", "COUNT"] {
        match one_of(key, &["0.5"]).matches(&record) {
            Err(MapError::FilterFieldType) => {}
            other => panic!("{:?}", other),
        }
    }
    for (key, kind) in [
        ("NAME", "dbase::Character"),
        ("AREA", "dbase::Numeric"),
        ("FLAG", "dbase::Logical"),
        ("COUNT", "dbase::Integer"),
    ] {
        match greater_than(key, 0.).matches(&record) {
            Err(MapError::FilterNotNumeric { key: found, field_type }) => {
                assert_eq!(found, key);
                assert_eq!(field_type, kind);
            }
            other => panic!("{:?}", other),
        }
    }
}

#[test]
fn the_order_of_fields_makes_no_difference() {
    let mut backward = record();
    backward.fields.reverse();
    for name in ["NAME", "NOTE", "POP", "RATE", "MAYOR"] {
        assert_eq!(format!("{:?}", backward.get(name)), format!("{:?}", record().get(name)));
    }
}
