use mapmaker::cities::{
    characterize_relationship, choose_cities, consider_city, describe_cities, find_detour, list_ids,
    read_cities, read_city, sort_cities, City, Relationship,
};
use mapmaker::content::ShapeRecord;
use mapmaker::errors::MapError;
use mapmaker::geometry::{SerializablePoint, Shape, ShapeType};
use mapmaker::number::Number;
use mapmaker::records::{Field, FieldValue, Numeral, Record};

fn number(x: f64) -> Number {
    Number { bits: x.to_bits() }
}

fn city(name: &str, population: u32, is_capital: bool) -> City<String> {
    City {
        id: format!("#{}", name),
        name: name.to_string(),
        state_name: "NY".to_string(),
        population,
        is_capital,
        latitude: number(0.),
        longitude: number(0.),
    }
}

fn names(cities: &[City<String>]) -> Vec<(&str, u32)> {
    cities.iter().map(|city| (city.name.as_str(), city.population)).collect()
}

fn text(s: &str) -> FieldValue<String> {
    FieldValue::Character(Some(s.to_string()))
}

fn numeric(x: f64) -> FieldValue<String> {
    FieldValue::Numeric(Some(Numeral { value: number(x), text: x.to_string() }))
}

/// the record of a city, with one of its fields replaced or, if there is nothing to replace it by,
/// left out
fn shape(kind: ShapeType, changed: &str, to: Option<FieldValue<String>>) -> ShapeRecord {
    let mut to = to;
    let mut fields = Vec::new();
    for (name, value) in [
        ("NAME", text("Albany")),
        ("STATE_ABBR", text("NY")),
        ("POPULATION", numeric(97_856.9)),
        ("CAPITAL", text("State")),
        ("PLACE_FIPS", text("3601000")),
    ] {
        if name == changed {
            if let Some(value) = to.take() {
                fields.push(Field { name: name.to_string(), value });
            }
        } else {
            fields.push(Field { name: name.to_string(), value });
        }
    }
    ShapeRecord {
        shape: Shape {
            kind,
            x_range: (number(-73.75), number(-73.75)),
            y_range: (number(42.65), number(42.65)),
            center: SerializablePoint { x: number(-73.75), y: number(42.65) },
            parts: vec![],
        },
        record: Record { fields },
    }
}

fn changed(name: &str, to: FieldValue<String>) -> ShapeRecord {
    shape(ShapeType::Point, name, Some(to))
}

#[test]
fn cities_are_read() {
    let city = read_city(&shape(ShapeType::Point, "", None)).unwrap().unwrap();
    assert_eq!(city.id, "3601000");
    assert_eq!(city.name, "Albany");
    assert_eq!(city.state_name, "NY");
    assert_eq!(city.population, 97_856);
    assert!(city.is_capital);
    assert_eq!(city.latitude, number(42.65));
    assert_eq!(city.longitude, number(-73.75));
    let city = read_city(&changed("CAPITAL", FieldValue::Character(None))).unwrap().unwrap();
    assert!(!city.is_capital);
    for state in ["ME", "NH", "VT", "MA", "RI", "CT", "NY", "NJ", "PA", "DE", "MD", "DC", "VA"] {
        assert!(read_city(&changed("STATE_ABBR", text(state))).unwrap().is_some());
    }
}

#[test]
fn some_cities_are_passed_over() {
    for state in ["OH", "ny", "N", ""] {
        assert!(read_city(&changed("STATE_ABBR", text(state))).unwrap().is_none());
    }
    for name in ["NAME", "STATE_ABBR", "PLACE_FIPS"] {
        assert!(read_city(&changed(name, FieldValue::Character(None))).unwrap().is_none());
    }
    assert!(read_city(&changed("POPULATION", FieldValue::Numeric(None))).unwrap().is_none());
}

#[test]
fn columns_have_to_be_there() {
    for name in ["NAME", "STATE_ABBR", "POPULATION", "CAPITAL", "PLACE_FIPS"] {
        match read_city(&shape(ShapeType::Point, name, None)) {
            Err(MapError::ColumnMissing { column }) => assert_eq!(column, name),
            other => panic!("{:?}", other),
        }
    }
}

#[test]
fn columns_have_to_be_of_the_right_type() {
    for name in ["NAME", "STATE_ABBR"] {
        match read_city(&changed(name, numeric(1.))) {
            Err(MapError::ColumnNotText { column, found }) => {
                assert_eq!(column, name);
                assert_eq!(found, "dbase::Numeric");
            }
            other => panic!("{:?}", other),
        }
    }
    assert!(matches!(
        read_city(&changed("POPULATION", text("1"))),
        Err(MapError::ColumnNotNumeric { .. })
    ));
    assert!(matches!(
        read_city(&changed("CAPITAL", FieldValue::Logical)),
        Err(MapError::ColumnNotFlag { .. })
    ));
    match read_city(&changed("PLACE_FIPS", FieldValue::Integer)) {
        Err(e) => assert_eq!(
            e.message(),
            "the PLACE_FIPS column must be numeric, but I found dbase::Integer"
        ),
        other => panic!("{:?}", other),
    }
    match read_city(&shape(ShapeType::Polygon, "", None)) {
        Err(MapError::NotPoints { found }) => assert_eq!(found, "Polygon"),
        other => panic!("{:?}", other),
    }
    // cities that are passed over don't have to be points
    assert!(read_city(&shape(ShapeType::Polygon, "NAME", Some(FieldValue::Character(None))))
        .unwrap()
        .is_none());
    assert!(read_city(&shape(ShapeType::Polygon, "STATE_ABBR", Some(text("OH")))).is_err());
}

#[test]
fn cities_are_read_in_order() {
    let shapes = vec![
        changed("NAME", text("Troy")),
        changed("STATE_ABBR", text("OH")),
        changed("NAME", text("Utica")),
    ];
    let cities = read_cities(&shapes).unwrap();
    assert_eq!(names(&cities), vec![("Troy", 97_856), ("Utica", 97_856)]);
    let shapes = vec![
        changed("NAME", text("Troy")),
        changed("NAME", FieldValue::Date),
        changed("POPULATION", FieldValue::Date),
    ];
    assert!(matches!(read_cities(&shapes), Err(MapError::ColumnNotText { .. })));
}

#[test]
fn cities_are_sorted_by_size() {
    let mut cities: Vec<City<String>> = [("a", 5), ("b", 7), ("c", 5), ("d", 9), ("e", 7), ("f", 0)]
        .iter()
        .map(|&(name, population)| city(name, population, false))
        .collect();
    sort_cities(&mut cities);
    assert_eq!(
        names(&cities),
        vec![("d", 9), ("b", 7), ("e", 7), ("a", 5), ("c", 5), ("f", 0)]
    );
    let mut none: Vec<City<String>> = vec![];
    sort_cities(&mut none);
    assert!(none.is_empty());
}

#[test]
fn sorting_agrees_with_a_stable_sort() {
    let mut state: u64 = 12345;
    for n in 0..60 {
        let mut populations = Vec::new();
        for i in 0..n {
            state = state.wrapping_mul(6364136223846793005).wrapping_add(1442695040888963407);
            populations.push((i, ((state >> 40) % 10) as u32));
        }
        let mut cities: Vec<City<String>> =
            populations.iter().map(|(i, p)| city(&i.to_string(), *p, false)).collect();
        sort_cities(&mut cities);
        populations.sort_by(|a, b| b.1.cmp(&a.1));
        let expected: Vec<(String, u32)> =
            populations.iter().map(|(i, p)| (i.to_string(), *p)).collect();
        let found: Vec<(String, u32)> =
            cities.iter().map(|city| (city.name.clone(), city.population)).collect();
        assert_eq!(found, expected);
    }
}

#[test]
fn relationships_depend_on_prominence() {
    for (prominence, expected) in [
        (-1., Relationship::Merge),
        (-1e-300, Relationship::Merge),
        (-0., Relationship::ShowOne),
        (0., Relationship::ShowOne),
        (9_999.999, Relationship::ShowOne),
        (10_000., Relationship::ShowBoth),
        (1e9, Relationship::ShowBoth),
        (f64::NAN, Relationship::ShowBoth),
    ] {
        assert_eq!(characterize_relationship(false, number(prominence)), expected);
        assert_eq!(characterize_relationship(true, number(prominence)), Relationship::ShowBoth);
    }
}

/// cities whose names begin with the same letter are near each other
fn prominence(metropole: &City<String>, satellite: &City<String>, _: u32) -> Number {
    if metropole.name[..1] == satellite.name[..1] {
        number(satellite.population as f64 - metropole.population as f64 / 2.)
    } else {
        number(satellite.population as f64)
    }
}

#[test]
fn cities_are_chosen() {
    let cities = vec![
        city("b1", 30_000, false),
        city("a1", 100_000, false),
        city("a2", 40_000, false),
        city("a3", 72_000, false),
        city("c1", 9_999, false),
        city("a4", 10, true),
        city("b2", 24_000, false),
    ];
    let chosen = choose_cities(cities, &prominence).unwrap();
    // a3 is prominent enough, a2 belongs to a1, b2 is too close to b1, and c1 is too small
    assert_eq!(
        names(&chosen),
        vec![("a1", 140_000), ("a3", 72_000), ("b1", 30_000), ("a4", 10)]
    );
}

#[test]
fn what_is_nearest_in_size_is_considered_first() {
    let mut chosen = vec![city("a1", 50_000, false), city("b1", 40_000, false), city("a2", 39_000, false)];
    assert!(consider_city(&mut chosen, city("a3", 10_000, false), &prominence));
    assert_eq!(names(&chosen), vec![("a1", 60_000), ("b1", 40_000), ("a2", 39_000)]);
    assert!(consider_city(&mut chosen, city("d1", 10_000, false), &prominence));
    assert_eq!(chosen.len(), 4);
    assert!(consider_city(&mut chosen, city("e1", 10, false), &prominence));
    assert_eq!(chosen.len(), 4);
}

#[test]
fn borders_keep_cities_apart() {
    let elsewhere = |name, population| City { state_name: "NJ".to_string(), ..city(name, population, false) };
    assert_eq!(find_detour(&city("a", 1, false), &city("b", 1, true)), 0);
    assert_eq!(find_detour(&city("a", 1, false), &elsewhere("b", 1)), 6);
    assert_eq!(find_detour(&elsewhere("a", 1), &city("b", 1, false)), 6);
    // two cities are one if nothing is between them
    let near = |_: &City<String>, _: &City<String>, farther: u32| {
        number(if farther == 0 { -1. } else { 10_000. })
    };
    let cities = vec![city("a", 30, false), elsewhere("b", 20), city("c", 10, false), elsewhere("d", 5)];
    assert_eq!(names(&choose_cities(cities, &near).unwrap()), vec![("a", 40), ("b", 25)]);
}

#[test]
fn there_may_be_too_many_people_to_count() {
    let cities = vec![city("a1", u32::MAX, false), city("a2", 1, false)];
    assert!(choose_cities(cities, &prominence).is_none());
    let cities = vec![city("a1", u32::MAX - 1, false), city("a2", 1, false)];
    assert_eq!(names(&choose_cities(cities, &prominence).unwrap()), vec![("a1", u32::MAX)]);
}

#[test]
fn cities_are_described() {
    let cities: Vec<City<String>> = (0..25).map(|i| city(&format!("c{}", i), 100 - i, false)).collect();
    let descriptions = describe_cities(&cities);
    assert_eq!(descriptions.len(), 20);
    assert_eq!(descriptions[0], "#c0: c0, NY");
    assert_eq!(descriptions[19], "#c19: c19, NY");
    assert_eq!(list_ids(&cities[..0].iter().map(|_| city("x", 0, false)).collect()), "[]");
    let few = vec![city("x", 0, false), city("y", 0, false)];
    assert_eq!(list_ids(&few), "[\"#x\", \"#y\"]");
}
