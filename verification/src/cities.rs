//! Choosing which cities to put on a map.

use crate::content::{ShapeRecord, ShapeRecordView};
use crate::errors::{Failure, MapError};
use crate::geometry::ShapeType;
use crate::number::{Number, MANTISSAS};
use crate::records::{lookup, FieldValue, Record, RecordView};
use crate::text::{join, joined, opt_view, views};
use vstd::arithmetic::power2::{lemma2_to64, lemma_pow2_adds, pow2};
use vstd::prelude::*;
use vstd::string::StringExecFns;

verus! {

/// the column with the name of a city
pub const NAME_KEY: &'static str = "NAME";

/// the column with the abbreviation of the state a city is in
pub const STATE_NAME_KEY: &'static str = "STATE_ABBR";

/// the column with the number of people who live in a city
pub const POPULATION_KEY: &'static str = "POPULATION";

/// the column with a mark for each city that is a capital
pub const CAPITAL_KEY: &'static str = "CAPITAL";

/// the column with what tells a city from all others
pub const ID_KEY: &'static str = "PLACE_FIPS";

/// a city.  `S` is a string, or in specifications what a string holds.
#[derive(Debug)]
pub struct City<S> {
    pub id: S,
    pub name: S,
    pub state_name: S,
    pub population: u32,
    pub is_capital: bool,
    pub latitude: Number,
    pub longitude: Number,
}

/// what a city holds
pub type CityView = City<Seq<char>>;

impl View for City<String> {
    type V = CityView;

    open spec fn view(&self) -> CityView {
        City {
            id: self.id@,
            name: self.name@,
            state_name: self.state_name@,
            population: self.population,
            is_capital: self.is_capital,
            latitude: self.latitude,
            longitude: self.longitude,
        }
    }
}

/// what each of the cities holds
pub open spec fn cities_view(cities: Seq<City<String>>) -> Seq<CityView> {
    cities.map_values(|city: City<String>| city@)
}

/// whether the state is one whose cities are to be chosen among
pub open spec fn is_of_interest(state: Seq<char>) -> bool {
    state == "ME"@ || state == "NH"@ || state == "VT"@ || state == "MA"@ || state == "RI"@ || state
        == "CT"@ || state == "NY"@ || state == "NJ"@ || state == "PA"@ || state == "DE"@ || state
        == "MD"@ || state == "DC"@ || state == "VA"@
}

fn is_state_of_interest(state: &String) -> (b: bool)
    ensures
        b == is_of_interest(state@),
{
    *state == "ME".to_owned() || *state == "NH".to_owned() || *state == "VT".to_owned() || *state
        == "MA".to_owned() || *state == "RI".to_owned() || *state == "CT".to_owned() || *state
        == "NY".to_owned() || *state == "NJ".to_owned() || *state == "PA".to_owned() || *state
        == "DE".to_owned() || *state == "MD".to_owned() || *state == "DC".to_owned() || *state
        == "VA".to_owned()
}

/// the text in a column, if there is any in this record
pub open spec fn text_in(record: RecordView, column: Seq<char>) -> Result<
    Option<Seq<char>>,
    MapError<Seq<char>>,
> {
    match lookup(record, column) {
        Some(FieldValue::Character(text)) => Ok(text),
        Some(other) => Err(
            if column == ID_KEY@ {
                MapError::ColumnNotNumeric { column, found: other.type_title() }
            } else if column == CAPITAL_KEY@ {
                MapError::ColumnNotFlag { column, found: other.type_title() }
            } else {
                MapError::ColumnNotText { column, found: other.type_title() }
            },
        ),
        None => Err(MapError::ColumnMissing { column }),
    }
}

/// the whole number in a column, if there is any in this record
pub open spec fn number_in(record: RecordView, column: Seq<char>) -> Result<
    Option<int>,
    MapError<Seq<char>>,
> {
    match lookup(record, column) {
        Some(FieldValue::Numeric(Some(number))) => Ok(Some(number.value.whole())),
        Some(FieldValue::Numeric(None)) => Ok(None),
        Some(other) => Err(MapError::ColumnNotNumeric { column, found: other.type_title() }),
        None => Err(MapError::ColumnMissing { column }),
    }
}

/// the city that a shape and its record describe, if all of it is there and it is one to choose
/// among
pub open spec fn city_in(shape: ShapeRecordView) -> Result<Option<CityView>, MapError<Seq<char>>> {
    match text_in(shape.record, NAME_KEY@) {
        Err(e) => Err(e),
        Ok(None) => Ok(None),
        Ok(Some(name)) => match text_in(shape.record, STATE_NAME_KEY@) {
            Err(e) => Err(e),
            Ok(None) => Ok(None),
            Ok(Some(state_name)) => match number_in(shape.record, POPULATION_KEY@) {
                Err(e) => Err(e),
                Ok(None) => Ok(None),
                Ok(Some(population)) => match text_in(shape.record, CAPITAL_KEY@) {
                    Err(e) => Err(e),
                    Ok(mark) => match text_in(shape.record, ID_KEY@) {
                        Err(e) => Err(e),
                        Ok(None) => Ok(None),
                        Ok(Some(id)) => if shape.shape.kind != ShapeType::Point {
                            Err(MapError::NotPoints { found: shape.shape.kind.title() })
                        } else if is_of_interest(state_name) {
                            Ok(
                                Some(
                                    City {
                                        id,
                                        name,
                                        state_name,
                                        population: population as u32,
                                        is_capital: mark is Some,
                                        latitude: shape.shape.y_range.0,
                                        longitude: shape.shape.x_range.0,
                                    },
                                ),
                            )
                        } else {
                            Ok(None)
                        },
                    },
                },
            },
        },
    }
}

/// the cities that the shapes and their records describe
pub open spec fn cities_in(shapes: Seq<ShapeRecordView>) -> Result<
    Seq<CityView>,
    MapError<Seq<char>>,
>
    decreases shapes.len(),
{
    if shapes.len() == 0 {
        Ok(Seq::empty())
    } else {
        match cities_in(shapes.drop_last()) {
            Ok(before) => match city_in(shapes.last()) {
                Ok(Some(city)) => Ok(before.push(city)),
                Ok(None) => Ok(before),
                Err(e) => Err(e),
            },
            Err(e) => Err(e),
        }
    }
}

/// find the text in a column
fn get_text(record: &Record, column: &str) -> (r: Result<Option<String>, Failure>)
    requires
        column@ == NAME_KEY@ || column@ == STATE_NAME_KEY@ || column@ == CAPITAL_KEY@ || column@
            == ID_KEY@,
    ensures
        match r {
            Ok(text) => text_in(record@, column@) == Ok::<_, MapError<Seq<char>>>(opt_view(text)),
            Err(e) => text_in(record@, column@) == Err::<Option<Seq<char>>, _>(e@),
        },
{
    let key = column.to_owned();
    match record.get(column) {
        Some(FieldValue::Character(Some(text))) => Ok(Some(text.clone())),
        Some(FieldValue::Character(None)) => Ok(None),
        Some(other) => Err(
            if key == ID_KEY.to_owned() {
                MapError::ColumnNotNumeric { column: key, found: other.field_type() }
            } else if key == CAPITAL_KEY.to_owned() {
                MapError::ColumnNotFlag { column: key, found: other.field_type() }
            } else {
                MapError::ColumnNotText { column: key, found: other.field_type() }
            },
        ),
        None => Err(MapError::ColumnMissing { column: key }),
    }
}

/// read a city from a shape and its record
pub fn read_city(shape: &ShapeRecord) -> (r: Result<Option<City<String>>, Failure>)
    ensures
        match r {
            Ok(Some(city)) => city_in(shape@) == Ok::<_, MapError<Seq<char>>>(Some(city@)),
            Ok(None) => city_in(shape@) == Ok::<_, MapError<Seq<char>>>(None::<CityView>),
            Err(e) => city_in(shape@) == Err::<Option<CityView>, _>(e@),
        },
{
    let record = &shape.record;
    let name = match get_text(record, NAME_KEY) {
        Ok(Some(name)) => name,
        Ok(None) => {
            return Ok(None);
        },
        Err(e) => {
            return Err(e);
        },
    };
    let state_name = match get_text(record, STATE_NAME_KEY) {
        Ok(Some(state_name)) => state_name,
        Ok(None) => {
            return Ok(None);
        },
        Err(e) => {
            return Err(e);
        },
    };
    let population: u32 = match record.get(POPULATION_KEY) {
        Some(FieldValue::Numeric(Some(number))) => number.value.to_whole(),
        Some(FieldValue::Numeric(None)) => {
            return Ok(None);
        },
        Some(other) => {
            return Err(
                MapError::ColumnNotNumeric {
                    column: POPULATION_KEY.to_owned(),
                    found: other.field_type(),
                },
            );
        },
        None => {
            return Err(MapError::ColumnMissing { column: POPULATION_KEY.to_owned() });
        },
    };
    let is_capital = match get_text(record, CAPITAL_KEY) {
        Ok(mark) => mark.is_some(),
        Err(e) => {
            return Err(e);
        },
    };
    let id = match get_text(record, ID_KEY) {
        Ok(Some(id)) => id,
        Ok(None) => {
            return Ok(None);
        },
        Err(e) => {
            return Err(e);
        },
    };
    match shape.shape.kind {
        ShapeType::Point => {},
        other => {
            return Err(MapError::NotPoints { found: other.name() });
        },
    }
    if is_state_of_interest(&state_name) {
        Ok(
            Some(
                City {
                    id,
                    name,
                    state_name,
                    population,
                    is_capital,
                    latitude: shape.shape.y_range.0,
                    longitude: shape.shape.x_range.0,
                },
            ),
        )
    } else {
        Ok(None)
    }
}

proof fn lemma_first_unreadable(shapes: Seq<ShapeRecordView>, n: int)
    requires
        0 <= n <= shapes.len(),
        cities_in(shapes.take(n)) is Err,
    ensures
        cities_in(shapes) == cities_in(shapes.take(n)),
    decreases shapes.len(),
{
    if n < shapes.len() {
        assert(shapes.drop_last().take(n) =~= shapes.take(n));
        lemma_first_unreadable(shapes.drop_last(), n);
    } else {
        assert(shapes.take(n) =~= shapes);
    }
}

/// read the cities from the shapes and their records
pub fn read_cities(shapes: &Vec<ShapeRecord>) -> (r: Result<Vec<City<String>>, Failure>)
    ensures
        ({
            let goal = cities_in(shapes@.map_values(|shape: ShapeRecord| shape@));
            match r {
                Ok(cities) => goal == Ok::<_, MapError<Seq<char>>>(cities_view(cities@)),
                Err(e) => goal == Err::<Seq<CityView>, _>(e@),
            }
        }),
{
    let ghost all = shapes@.map_values(|shape: ShapeRecord| shape@);
    let mut cities: Vec<City<String>> = Vec::new();
    assert(all.take(0) =~= Seq::empty());
    assert(cities_view(cities@) =~= Seq::empty());
    for i in 0..shapes.len()
        invariant
            all == shapes@.map_values(|shape: ShapeRecord| shape@),
            cities_in(all.take(i as int)) == Ok::<_, MapError<Seq<char>>>(cities_view(cities@)),
    {
        proof {
            assert(all.take(i + 1).drop_last() =~= all.take(i as int));
            assert(all.take(i + 1).last() == shapes@[i as int]@);
        }
        match read_city(&shapes[i]) {
            Ok(Some(city)) => {
                let ghost before = cities@;
                cities.push(city);
                assert(cities_view(cities@) =~= cities_view(before).push(city@));
            },
            Ok(None) => {},
            Err(e) => {
                proof {
                    lemma_first_unreadable(all, i + 1);
                }
                return Err(e);
            },
        }
    }
    assert(all.take(all.len() as int) =~= all);
    Ok(cities)
}

/// the cities with another one put in after all that are at least as big
pub open spec fn with_city(cities: Seq<CityView>, city: CityView) -> Seq<CityView>
    decreases cities.len(),
{
    if cities.len() == 0 || cities.last().population >= city.population {
        cities.push(city)
    } else {
        with_city(cities.drop_last(), city).push(cities.last())
    }
}

/// the cities from the biggest to the smallest, those of the same size in the order they were in
pub open spec fn by_size(cities: Seq<CityView>) -> Seq<CityView>
    decreases cities.len(),
{
    if cities.len() == 0 {
        Seq::empty()
    } else {
        with_city(by_size(cities.drop_last()), cities.last())
    }
}

/// whether no city comes after a smaller one
pub open spec fn is_by_size(cities: Seq<CityView>) -> bool {
    forall|i: int, j: int|
        0 <= i <= j < cities.len() ==> (#[trigger] cities[i]).population >= (
        #[trigger] cities[j]).population
}

/// the cities of one size, in order
pub open spec fn of_size(cities: Seq<CityView>, population: u32) -> Seq<CityView> {
    cities.filter(|city: CityView| city.population == population)
}

proof fn lemma_with_city(cities: Seq<CityView>, city: CityView)
    requires
        is_by_size(cities),
    ensures
        is_by_size(with_city(cities, city)),
        with_city(cities, city).len() == cities.len() + 1,
        with_city(cities, city).to_multiset() =~= cities.to_multiset().insert(city),
        forall|i: int|
            0 <= i < with_city(cities, city).len() ==> {
                ||| #[trigger] with_city(cities, city)[i] == city
                ||| cities.len() > 0 && with_city(cities, city)[i].population
                    >= cities.last().population
            },
    decreases cities.len(),
{
    broadcast use vstd::seq_lib::group_to_multiset_ensures;

    let result = with_city(cities, city);
    if cities.len() == 0 || cities.last().population >= city.population {
    } else {
        let rest = cities.drop_last();
        lemma_with_city(rest, city);
        let inner = with_city(rest, city);
        assert(cities =~= rest.push(cities.last()));
        assert(result.to_multiset() =~= inner.to_multiset().insert(cities.last()));
        assert(cities.to_multiset() =~= rest.to_multiset().insert(cities.last()));
        if rest.len() > 0 {
            assert(rest.last().population >= cities.last().population) by {
                assert(cities[cities.len() - 2].population >= cities[cities.len() - 1].population);
            }
        }
    }
}

/// the cities come out from the biggest to the smallest, and they are the same ones
pub proof fn law_cities_are_sorted(cities: Seq<CityView>)
    ensures
        is_by_size(by_size(cities)),
        by_size(cities).len() == cities.len(),
        by_size(cities).to_multiset() == cities.to_multiset(),
    decreases cities.len(),
{
    broadcast use vstd::seq_lib::group_to_multiset_ensures;

    if cities.len() > 0 {
        let rest = cities.drop_last();
        law_cities_are_sorted(rest);
        lemma_with_city(by_size(rest), cities.last());
        assert(cities =~= rest.push(cities.last()));
        assert(by_size(cities).to_multiset() =~= cities.to_multiset());
    } else {
        assert(by_size(cities) =~= cities);
    }
}

proof fn lemma_filter_push(cities: Seq<CityView>, city: CityView, population: u32)
    ensures
        of_size(cities.push(city), population) == if city.population == population {
            of_size(cities, population).push(city)
        } else {
            of_size(cities, population)
        },
{
    reveal(Seq::filter);
    assert(cities.push(city).drop_last() =~= cities);
}

proof fn lemma_with_city_of_size(cities: Seq<CityView>, city: CityView, population: u32)
    requires
        is_by_size(cities),
    ensures
        of_size(with_city(cities, city), population) == of_size(cities.push(city), population),
    decreases cities.len(),
{
    if cities.len() > 0 && cities.last().population < city.population {
        let rest = cities.drop_last();
        let last = cities.last();
        lemma_with_city_of_size(rest, city, population);
        assert(cities =~= rest.push(last));
        lemma_filter_push(with_city(rest, city), last, population);
        lemma_filter_push(rest, city, population);
        lemma_filter_push(rest, last, population);
        lemma_filter_push(cities, city, population);
    }
}

/// cities of the same size stay in the order they were in
pub proof fn law_sorting_is_stable(cities: Seq<CityView>, population: u32)
    ensures
        of_size(by_size(cities), population) == of_size(cities, population),
    decreases cities.len(),
{
    if cities.len() > 0 {
        let rest = cities.drop_last();
        let last = cities.last();
        law_sorting_is_stable(rest, population);
        law_cities_are_sorted(rest);
        lemma_with_city_of_size(by_size(rest), last, population);
        assert(cities =~= rest.push(last));
        lemma_filter_push(by_size(rest), last, population);
        lemma_filter_push(rest, last, population);
    } else {
        assert(by_size(cities) =~= cities);
    }
}

/// cities that are in order already stay as they are
pub proof fn law_sorted_cities_stay(cities: Seq<CityView>)
    requires
        is_by_size(cities),
    ensures
        by_size(cities) == cities,
    decreases cities.len(),
{
    if cities.len() > 0 {
        let rest = cities.drop_last();
        law_sorted_cities_stay(rest);
        if rest.len() > 0 {
            assert(cities[cities.len() - 2].population >= cities[cities.len() - 1].population);
        }
        assert(rest.push(cities.last()) =~= cities);
    } else {
        assert(by_size(cities) =~= cities);
    }
}

/// where the city goes among the first `n`, counting from the back
proof fn lemma_with_city_at(cities: Seq<CityView>, city: CityView, at: int)
    requires
        0 <= at <= cities.len(),
        at > 0 ==> cities[at - 1].population >= city.population,
        forall|j: int| at <= j < cities.len() ==> (#[trigger] cities[j]).population
            < city.population,
    ensures
        with_city(cities, city) == cities.insert(at, city),
    decreases cities.len(),
{
    if at == cities.len() {
        assert(cities.insert(at, city) =~= cities.push(city));
    } else {
        let rest = cities.drop_last();
        assert(cities[cities.len() - 1].population < city.population);
        assert forall|j: int| at <= j < rest.len() implies (#[trigger] rest[j]).population
            < city.population by {
            assert(rest[j] == cities[j]);
        }
        lemma_with_city_at(rest, city, at);
        assert(rest.insert(at, city).push(cities.last()) =~= cities.insert(at, city));
    }
}

/// sort them from biggest to smallest
pub fn sort_cities(cities: &mut Vec<City<String>>)
    ensures
        cities_view(final(cities)@) == by_size(cities_view(old(cities)@)),
{
    let ghost all = cities_view(cities@);
    let n = cities.len();
    assert(all.take(0) =~= Seq::empty());
    assert(cities_view(cities@) =~= by_size(all.take(0)) + all.skip(0));
    for i in 0..n
        invariant
            n == cities@.len(),
            n == all.len(),
            by_size(all.take(i as int)).len() == i,
            cities_view(cities@) == by_size(all.take(i as int)) + all.skip(i as int),
    {
        let ghost sorted = by_size(all.take(i as int));
        let ghost before = cities@;
        let population: u32 = cities[i].population;
        let mut at: usize = i;
        assert(cities_view(cities@)[i as int] == all[i as int]);
        while at > 0 && cities[at - 1].population < population
            invariant
                at <= i < cities@.len(),
                cities@ == before,
                n == cities@.len(),
                sorted.len() == i,
                cities_view(before) == sorted + all.skip(i as int),
                population == all[i as int].population,
                forall|j: int| at <= j < i ==> (#[trigger] sorted[j]).population < population,
            decreases at,
        {
            assert(cities_view(before)[at - 1] == sorted[at - 1]);
            at -= 1;
        }
        proof {
            if at > 0 {
                assert(cities_view(before)[at - 1] == sorted[at - 1]);
            }
            assert(all.take(i + 1).drop_last() =~= all.take(i as int));
            assert(all.take(i + 1).last() == all[i as int]);
            lemma_with_city_at(sorted, all[i as int], at as int);
            law_cities_are_sorted(all.take(i + 1));
        }
        let city = cities.remove(i);
        assert(city@ == all[i as int]) by {
            assert(cities_view(before)[i as int] == all[i as int]);
        }
        cities.insert(at, city);
        assert(cities_view(cities@) =~= sorted.insert(at as int, all[i as int]) + all.skip(i + 1)) by {
            assert forall|j: int| 0 <= j < n implies #[trigger] cities_view(cities@)[j] == (
            sorted.insert(at as int, all[i as int]) + all.skip(i + 1))[j] by {
                if j < at {
                    assert(cities_view(before)[j] == sorted[j]);
                } else if at < j <= i {
                    assert(cities_view(before)[j - 1] == sorted[j - 1]);
                } else if j > i {
                    assert(cities_view(before)[j] == all[j]);
                }
            }
        }
    }
    assert(all.take(n as int) =~= all);
    assert(cities_view(cities@) =~= by_size(all));
}

/// what is to become of a city near a bigger one
#[derive(Clone, Copy, Debug, PartialEq, Eq, Structural)]
pub enum Relationship {
    /// the two are treated as one
    Merge,
    /// the smaller one is omitted
    ShowOne,
    /// the bigger one doesn't matter
    ShowBoth,
}

/// what is to become of a city near a bigger one, depending on how many more people live in it than
/// would be taken for a part of the bigger one.  capitals are always shown.
pub open spec fn relationship(is_capital: bool, prominence: Number) -> Relationship {
    if is_capital {
        Relationship::ShowBoth
    } else if prominence.below(Number { bits: 0 }) {
        Relationship::Merge
    } else if prominence.below(Number { bits: TEN_THOUSAND }) {
        Relationship::ShowOne
    } else {
        Relationship::ShowBoth
    }
}

/// the number of people that makes a city worth showing, as the bits of a number
pub const TEN_THOUSAND: u64 = 0x40c3_8800_0000_0000;

/// decide what is to become of a city near a bigger one
pub fn characterize_relationship(satellite_is_capital: bool, prominence: Number) -> (r:
    Relationship)
    ensures
        r == relationship(satellite_is_capital, prominence),
{
    if satellite_is_capital {
        Relationship::ShowBoth
    } else if prominence.less_than(Number { bits: 0 }) {
        Relationship::Merge
    } else if prominence.less_than(Number { bits: TEN_THOUSAND }) {
        Relationship::ShowOne
    } else {
        Relationship::ShowBoth
    }
}

/// how much farther it seems from one city to another if they are in different states (km)
pub const BORDER: u32 = 6;

/// how much farther it seems from one city to another than it is (km)
pub open spec fn detour(metropole: CityView, satellite: CityView) -> u32 {
    if metropole.state_name != satellite.state_name {
        BORDER
    } else {
        0
    }
}

/// find how much farther it seems from one city to another than it is (km)
pub fn find_detour(metropole: &City<String>, satellite: &City<String>) -> (d: u32)
    ensures
        d == detour(metropole@, satellite@),
{
    if metropole.state_name == satellite.state_name {
        0
    } else {
        BORDER
    }
}

/// how many more people live in a city (the second of the two) than would be taken for a part of
/// a bigger one, if it is taken to be so many kilometers farther away
pub type Prominence = spec_fn(CityView, CityView, u32) -> Number;

/// the city with more people in it
pub open spec fn grown(city: CityView, population: u32) -> CityView {
    City { population: (city.population + population) as u32, ..city }
}

/// the chosen cities after another one has been held against those from the `k`th on: it is added
/// to them, or omitted, or merged into one of them.  there are none if there are then too many
/// people in that one to count.
pub open spec fn considered(
    chosen: Seq<CityView>,
    city: CityView,
    k: int,
    prominence: Prominence,
) -> Option<Seq<CityView>>
    decreases chosen.len() - k,
{
    if k < 0 || k >= chosen.len() {
        Some(chosen.push(city))
    } else {
        match relationship(city.is_capital, prominence(chosen[k], city, detour(chosen[k], city))) {
            Relationship::ShowBoth => considered(chosen, city, k + 1, prominence),
            Relationship::ShowOne => Some(chosen),
            Relationship::Merge => if chosen[k].population + city.population <= u32::MAX {
                Some(chosen.update(k, grown(chosen[k], city.population)))
            } else {
                None
            },
        }
    }
}

/// the cities that are chosen out of some, which are considered in this order
pub open spec fn chosen_in_turn(cities: Seq<CityView>, prominence: Prominence) -> Option<
    Seq<CityView>,
>
    decreases cities.len(),
{
    if cities.len() == 0 {
        Some(Seq::empty())
    } else {
        match chosen_in_turn(cities.drop_last(), prominence) {
            Some(chosen) => considered(by_size(chosen), cities.last(), 0, prominence),
            None => None,
        }
    }
}

/// the cities that are chosen out of some
pub open spec fn chosen(cities: Seq<CityView>, prominence: Prominence) -> Option<Seq<CityView>> {
    match chosen_in_turn(by_size(cities), prominence) {
        Some(chosen) => Some(by_size(chosen)),
        None => None,
    }
}

/// whether the function can be called on any cities
pub open spec fn can_measure<F: Fn(&City<String>, &City<String>, u32) -> Number>(
    measure: F,
) -> bool {
    forall|a: &City<String>, b: &City<String>, farther: u32| #[trigger]
        call_requires(measure, (a, b, farther))
}

/// whether the function computes the prominence
pub open spec fn measures<F: Fn(&City<String>, &City<String>, u32) -> Number>(
    measure: F,
    prominence: Prominence,
) -> bool {
    &&& can_measure(measure)
    &&& forall|a: &City<String>, b: &City<String>, farther: u32, d: Number| #[trigger]
        call_ensures(measure, (a, b, farther), d) ==> d == prominence(a@, b@, farther)
}

/// look at all larger cities that are already on the map, and decide about a new one
pub fn consider_city<F: Fn(&City<String>, &City<String>, u32) -> Number>(
    chosen_cities: &mut Vec<City<String>>,
    new_city: City<String>,
    measure: &F,
) -> (done: bool)
    requires
        can_measure(*measure),
    ensures
        forall|prominence: Prominence| #[trigger]
            measures(*measure, prominence) ==> match considered(
                cities_view(old(chosen_cities)@),
                new_city@,
                0,
                prominence,
            ) {
                Some(result) => done && cities_view(final(chosen_cities)@) == result,
                None => !done,
            },
{
    let ghost before = cities_view(chosen_cities@);
    let n = chosen_cities.len();
    for k in 0..n
        invariant
            n == chosen_cities@.len(),
            cities_view(chosen_cities@) == before,
            before == cities_view(old(chosen_cities)@),
            can_measure(*measure),
            forall|prominence: Prominence| #[trigger]
                measures(*measure, prominence) ==> considered(before, new_city@, 0, prominence)
                    == considered(before, new_city@, k as int, prominence),
    {
        let farther = find_detour(&chosen_cities[k], &new_city);
        let prominence = measure(&chosen_cities[k], &new_city, farther);
        assert(before[k as int] == chosen_cities@[k as int]@);
        match characterize_relationship(new_city.is_capital, prominence) {
            // either deem that the larger city is irrelevant
            Relationship::ShowBoth => {},
            // or deem that the larger city is too close and this one must be omitted
            Relationship::ShowOne => {
                return true;
            },
            // or deem that the larger city is so close that they should be treated as one
            Relationship::Merge => {
                let ghost list = chosen_cities@;
                let mut big_city = chosen_cities.remove(k);
                match big_city.population.checked_add(new_city.population) {
                    Some(population) => {
                        big_city.population = population;
                        chosen_cities.insert(k, big_city);
                        assert(cities_view(chosen_cities@) =~= before.update(
                            k as int,
                            grown(before[k as int], new_city.population),
                        )) by {
                            assert forall|j: int| 0 <= j < before.len() implies #[trigger]
                                cities_view(chosen_cities@)[j] == before.update(
                                k as int,
                                grown(before[k as int], new_city.population),
                            )[j] by {
                                if j != k {
                                    assert(before[j] == list[j]@);
                                }
                            }
                        }
                        return true;
                    },
                    None => {
                        return false;
                    },
                }
            },
        }
    }
    // if they all turn up ShowBoth, then you may choose this city
    chosen_cities.push(new_city);
    assert(cities_view(chosen_cities@) =~= before.push(new_city@));
    true
}

/// go thru and choose which cities to keep and which to omit
pub fn choose_cities<F: Fn(&City<String>, &City<String>, u32) -> Number>(
    cities: Vec<City<String>>,
    measure: &F,
) -> (r: Option<Vec<City<String>>>)
    requires
        can_measure(*measure),
    ensures
        forall|prominence: Prominence| #[trigger]
            measures(*measure, prominence) ==> match r {
                Some(result) => chosen(cities_view(cities@), prominence) == Some(
                    cities_view(result@),
                ),
                None => chosen(cities_view(cities@), prominence) is None,
            },
{
    let ghost given = cities_view(cities@);
    let mut sorted = cities;
    sort_cities(&mut sorted);
    let ghost list = sorted@;
    let ghost all = cities_view(list);
    let mut chosen_cities: Vec<City<String>> = Vec::new();
    assert(all.take(0) =~= Seq::empty());
    assert(cities_view(chosen_cities@) =~= Seq::empty());
    for new_city in it: sorted
        invariant
            it.seq() == list,
            all == cities_view(list),
            all == by_size(given),
            can_measure(*measure),
            forall|prominence: Prominence| #[trigger]
                measures(*measure, prominence) ==> chosen_in_turn(
                    all.take(it.index()),
                    prominence,
                ) == Some(cities_view(chosen_cities@)),
            given == cities_view(cities@),
    {
        let ghost i = it.index();
        proof {
            assert(all.take(i + 1).drop_last() =~= all.take(i));
            assert(all.take(i + 1).last() == new_city@);
        }
        // re-sort this list every time because even if it starts out correct it might have changed
        // last loop
        sort_cities(&mut chosen_cities);
        if !consider_city(&mut chosen_cities, new_city, measure) {
            proof {
                assert forall|prominence: Prominence| #[trigger]
                    measures(*measure, prominence) implies chosen_in_turn(all, prominence)
                    is None by {
                    lemma_first_overflow(all, i + 1, prominence);
                }
            }
            return None;
        }
    }
    assert(all.take(all.len() as int) =~= all);
    // finally, double-check that it's sorted right
    sort_cities(&mut chosen_cities);
    Some(chosen_cities)
}

proof fn lemma_first_overflow(cities: Seq<CityView>, n: int, prominence: Prominence)
    requires
        0 <= n <= cities.len(),
        chosen_in_turn(cities.take(n), prominence) is None,
    ensures
        chosen_in_turn(cities, prominence) is None,
    decreases cities.len(),
{
    if n < cities.len() {
        assert(cities.drop_last().take(n) =~= cities.take(n));
        lemma_first_overflow(cities.drop_last(), n, prominence);
    } else {
        assert(cities.take(n) =~= cities);
    }
}

/// whether this is what has become of the city: all is as it was, but for more people perhaps
pub open spec fn is_outgrowth(city: CityView, later: CityView) -> bool {
    later.population >= city.population && later == City { population: later.population, ..city }
}

/// whether what has become of the city is among these
pub open spec fn has_outgrowth(cities: Seq<CityView>, city: CityView) -> bool {
    exists|j: int| 0 <= j < cities.len() && is_outgrowth(city, #[trigger] cities[j])
}

/// whether the city was one of these to begin with
pub open spec fn is_outgrowth_of_one(cities: Seq<CityView>, later: CityView) -> bool {
    exists|i: int| 0 <= i < cities.len() && is_outgrowth(#[trigger] cities[i], later)
}

proof fn lemma_sorting_keeps(cities: Seq<CityView>, city: CityView)
    ensures
        by_size(cities).contains(city) <==> cities.contains(city),
        has_outgrowth(cities, city) <==> has_outgrowth(by_size(cities), city),
        is_outgrowth_of_one(cities, city) <==> is_outgrowth_of_one(by_size(cities), city),
{
    broadcast use vstd::seq_lib::group_to_multiset_ensures;

    law_cities_are_sorted(cities);
    let sorted = by_size(cities);
    assert forall|c: CityView| sorted.contains(c) <==> cities.contains(c) by {
        assert(sorted.contains(c) <==> sorted.to_multiset().count(c) > 0);
        assert(cities.contains(c) <==> cities.to_multiset().count(c) > 0);
    }
    if has_outgrowth(cities, city) {
        let j = choose|j: int| 0 <= j < cities.len() && is_outgrowth(city, #[trigger] cities[j]);
        assert(sorted.contains(cities[j]));
        let k = choose|k: int| 0 <= k < sorted.len() && sorted[k] == cities[j];
        assert(is_outgrowth(city, sorted[k]));
    }
    if has_outgrowth(sorted, city) {
        let j = choose|j: int| 0 <= j < sorted.len() && is_outgrowth(city, #[trigger] sorted[j]);
        assert(cities.contains(sorted[j]));
        let k = choose|k: int| 0 <= k < cities.len() && cities[k] == sorted[j];
        assert(is_outgrowth(city, cities[k]));
    }
    if is_outgrowth_of_one(cities, city) {
        let j = choose|j: int| 0 <= j < cities.len() && is_outgrowth(#[trigger] cities[j], city);
        assert(sorted.contains(cities[j]));
        let k = choose|k: int| 0 <= k < sorted.len() && sorted[k] == cities[j];
        assert(is_outgrowth(sorted[k], city));
    }
    if is_outgrowth_of_one(sorted, city) {
        let j = choose|j: int| 0 <= j < sorted.len() && is_outgrowth(#[trigger] sorted[j], city);
        assert(cities.contains(sorted[j]));
        let k = choose|k: int| 0 <= k < cities.len() && cities[k] == sorted[j];
        assert(is_outgrowth(cities[k], city));
    }
}

/// what becomes of the chosen cities when another one is considered
proof fn lemma_considered(
    chosen: Seq<CityView>,
    city: CityView,
    k: int,
    prominence: Prominence,
)
    requires
        0 <= k,
    ensures
        considered(chosen, city, k, prominence) matches Some(result) ==> {
            &&& chosen.len() <= result.len() <= chosen.len() + 1
            &&& forall|i: int|
                0 <= i < chosen.len() ==> is_outgrowth(#[trigger] chosen[i], result[i])
            &&& result.len() > chosen.len() ==> result[chosen.len() as int] == city
        },
        city.is_capital ==> considered(chosen, city, k, prominence) == Some(chosen.push(city)),
    decreases chosen.len() - k,
{
    assert forall|c: CityView| #[trigger] is_outgrowth(c, c) by {}
    if k >= chosen.len() {
        assert(considered(chosen, city, k, prominence) == Some(chosen.push(city)));
    } else {
        match relationship(city.is_capital, prominence(chosen[k], city, detour(chosen[k], city))) {
            Relationship::ShowBoth => {
                lemma_considered(chosen, city, k + 1, prominence);
            },
            Relationship::ShowOne => {
                assert(considered(chosen, city, k, prominence) == Some(chosen));
            },
            Relationship::Merge => {
                if chosen[k].population + city.population <= u32::MAX {
                    let big = grown(chosen[k], city.population);
                    assert(is_outgrowth(chosen[k], big));
                    assert(considered(chosen, city, k, prominence) == Some(chosen.update(k, big)));
                }
            },
        }
    }
}

proof fn lemma_chosen_in_turn(cities: Seq<CityView>, prominence: Prominence)
    ensures
        chosen_in_turn(cities, prominence) matches Some(result) ==> {
            &&& result.len() <= cities.len()
            &&& forall|i: int|
                0 <= i < cities.len() && (#[trigger] cities[i]).is_capital ==> has_outgrowth(
                    result,
                    cities[i],
                )
            &&& forall|j: int|
                0 <= j < result.len() ==> is_outgrowth_of_one(cities, #[trigger] result[j])
        },
    decreases cities.len(),
{
    if cities.len() > 0 {
        let rest = cities.drop_last();
        let last = cities.last();
        lemma_chosen_in_turn(rest, prominence);
        if let Some(before) = chosen_in_turn(rest, prominence) {
            let sorted = by_size(before);
            law_cities_are_sorted(before);
            lemma_considered(sorted, last, 0, prominence);
            if let Some(result) = considered(sorted, last, 0, prominence) {
                assert forall|i: int|
                    0 <= i < cities.len() && (#[trigger] cities[i]).is_capital implies has_outgrowth(
                    result,
                    cities[i],
                ) by {
                    if i < rest.len() {
                        assert(rest[i] == cities[i]);
                        lemma_sorting_keeps(before, cities[i]);
                        let j = choose|j: int|
                            0 <= j < sorted.len() && is_outgrowth(cities[i], #[trigger] sorted[j]);
                        assert(is_outgrowth(cities[i], result[j]));
                    } else {
                        assert(is_outgrowth(cities[i], result[sorted.len() as int]));
                    }
                }
                assert forall|j: int| 0 <= j < result.len() implies is_outgrowth_of_one(
                    cities,
                    #[trigger] result[j],
                ) by {
                    if j < sorted.len() {
                        assert(sorted.contains(sorted[j]));
                        lemma_sorting_keeps(before, sorted[j]);
                        let l = choose|l: int| 0 <= l < before.len() && before[l] == sorted[j];
                        assert(is_outgrowth_of_one(rest, before[l]));
                        let i = choose|i: int|
                            0 <= i < rest.len() && is_outgrowth(#[trigger] rest[i], before[l]);
                        assert(is_outgrowth(sorted[j], result[j]));
                        assert(cities[i] == rest[i]);
                        assert(is_outgrowth(cities[i], result[j]));
                    } else {
                        assert(is_outgrowth(cities[cities.len() - 1], result[j]));
                    }
                }
            }
        }
    }
}

/// every capital is chosen, whatever is around it; nothing is chosen that wasn't there; and the
/// chosen cities are in order.  the only thing that changes about a city is how many people are
/// counted as living in it.
pub proof fn law_capitals_are_chosen(cities: Seq<CityView>, prominence: Prominence)
    ensures
        chosen(cities, prominence) matches Some(result) ==> {
            &&& result.len() <= cities.len()
            &&& is_by_size(result)
            &&& forall|i: int|
                0 <= i < cities.len() && (#[trigger] cities[i]).is_capital ==> has_outgrowth(
                    result,
                    cities[i],
                )
            &&& forall|j: int|
                0 <= j < result.len() ==> is_outgrowth_of_one(cities, #[trigger] result[j])
        },
{
    let sorted = by_size(cities);
    law_cities_are_sorted(cities);
    lemma_chosen_in_turn(sorted, prominence);
    if let Some(picked) = chosen_in_turn(sorted, prominence) {
        let result = by_size(picked);
        law_cities_are_sorted(picked);
        assert forall|i: int|
            0 <= i < cities.len() && (#[trigger] cities[i]).is_capital implies has_outgrowth(
            result,
            cities[i],
        ) by {
            lemma_sorting_keeps(cities, cities[i]);
            assert(cities.contains(cities[i]));
            let k = choose|k: int| 0 <= k < sorted.len() && sorted[k] == cities[i];
            assert(has_outgrowth(picked, sorted[k]));
            lemma_sorting_keeps(picked, cities[i]);
        }
        assert forall|j: int| 0 <= j < result.len() implies is_outgrowth_of_one(
            cities,
            #[trigger] result[j],
        ) by {
            lemma_sorting_keeps(picked, result[j]);
            assert(result.contains(result[j]));
            let k = choose|k: int| 0 <= k < picked.len() && picked[k] == result[j];
            assert(is_outgrowth_of_one(sorted, picked[k]));
            lemma_sorting_keeps(cities, result[j]);
        }
    }
}

/// how many of the chosen cities are described
pub const DESCRIBED: usize = 20;

/// a city in words
pub open spec fn description(city: CityView) -> Seq<char> {
    city.id + ": "@ + city.name + ", "@ + city.state_name
}

/// what tells the cities from others, as a list
pub open spec fn id_list(cities: Seq<CityView>) -> Seq<char> {
    "["@ + joined(
        cities.map_values(|city: CityView| "\""@ + city.id + "\""@),
        ", "@,
    ) + "]"@
}

/// describe the first of the chosen cities
pub fn describe_cities(cities: &Vec<City<String>>) -> (descriptions: Vec<String>)
    requires
        cities@.len() >= DESCRIBED,
    ensures
        views(descriptions@) == cities_view(cities@).take(DESCRIBED as int).map_values(
            |city: CityView| description(city),
        ),
{
    let ghost goal = cities_view(cities@).take(DESCRIBED as int).map_values(
        |city: CityView| description(city),
    );
    let mut descriptions: Vec<String> = Vec::new();
    for i in 0..DESCRIBED
        invariant
            cities@.len() >= DESCRIBED,
            goal == cities_view(cities@).take(DESCRIBED as int).map_values(
                |city: CityView| description(city),
            ),
            views(descriptions@) == goal.take(i as int),
    {
        let mut s = cities[i].id.clone();
        s.append(": ");
        s.append(cities[i].name.as_str());
        s.append(", ");
        s.append(cities[i].state_name.as_str());
        let ghost before = descriptions@;
        descriptions.push(s);
        assert(views(descriptions@) =~= views(before).push(s@));
        assert(views(descriptions@) =~= goal.take(i + 1));
    }
    assert(goal.take(DESCRIBED as int) =~= goal);
    descriptions
}

/// list what tells the cities from others
pub fn list_ids(cities: &Vec<City<String>>) -> (s: String)
    ensures
        s@ == id_list(cities_view(cities@)),
{
    let ghost goal = cities_view(cities@).map_values(
        |city: CityView| "\""@ + city.id + "\""@,
    );
    let mut city_id_list: Vec<String> = Vec::new();
    for i in 0..cities.len()
        invariant
            goal == cities_view(cities@).map_values(|city: CityView| "\""@ + city.id + "\""@),
            views(city_id_list@) == goal.take(i as int),
    {
        let mut id = "\"".to_owned();
        id.append(cities[i].id.as_str());
        id.append("\"");
        let ghost before = city_id_list@;
        city_id_list.push(id);
        assert(views(city_id_list@) =~= views(before).push(id@));
        assert(views(city_id_list@) =~= goal.take(i + 1));
    }
    assert(goal.take(cities@.len() as int) =~= goal);
    let mut s = "[".to_owned();
    s.append(join(&city_id_list, ", ").as_str());
    s.append("]");
    s
}

/// whether a city would be taken for less than a city of its own, next to one of those that are chosen:
/// fewer than ten thousand people live in it beyond those that the other accounts for
pub open spec fn is_overshadowed(
    chosen: Seq<CityView>,
    city: CityView,
    k: int,
    prominence: Prominence,
) -> bool {
    let farther: u32 = if chosen[k].state_name == city.state_name {
        0
    } else {
        6
    };
    let excess = prominence(chosen[k], city, farther);
    !excess.is_nan() && excess.value() < 10_000 * pow2(1074)
}

/// whether all that live in a city are accounted for by one of those that are chosen
pub open spec fn is_swallowed(
    chosen: Seq<CityView>,
    city: CityView,
    k: int,
    prominence: Prominence,
) -> bool {
    let farther: u32 = if chosen[k].state_name == city.state_name {
        0
    } else {
        6
    };
    let excess = prominence(chosen[k], city, farther);
    !excess.is_nan() && excess.value() < 0
}

/// ten thousand, in units of the smallest positive number
proof fn lemma_ten_thousand()
    ensures
        !(Number { bits: TEN_THOUSAND }).is_nan(),
        (Number { bits: TEN_THOUSAND }).value() == 10_000 * pow2(1074),
        !(Number { bits: 0 }).is_nan(),
        (Number { bits: 0 }).value() == 0,
{
    lemma2_to64();
    lemma_pow2_adds(39, 1035);
    vstd::arithmetic::power2::lemma2_to64_rest();
    let n = MANTISSAS as int;
    let bits = TEN_THOUSAND as int;
    assert(bits / n == 1036);
    assert(bits % n == 10_000 * 0x80_0000_0000 - n);
    let p = pow2(1035) as int;
    assert(10_000 * (0x80_0000_0000 * p) == (10_000 * 0x80_0000_0000) * p) by (nonlinear_arith);
}

proof fn lemma_relationship(
    chosen: Seq<CityView>,
    city: CityView,
    k: int,
    prominence: Prominence,
)
    ensures
        ({
            let r = relationship(
                city.is_capital,
                prominence(chosen[k], city, detour(chosen[k], city)),
            );
            &&& city.is_capital || !is_overshadowed(chosen, city, k, prominence) ==> r
                == Relationship::ShowBoth
            &&& !city.is_capital && is_swallowed(chosen, city, k, prominence) ==> r
                == Relationship::Merge
            &&& !city.is_capital && is_overshadowed(chosen, city, k, prominence) && !is_swallowed(
                chosen,
                city,
                k,
                prominence,
            ) ==> r == Relationship::ShowOne
            &&& is_swallowed(chosen, city, k, prominence) ==> is_overshadowed(
                chosen,
                city,
                k,
                prominence,
            )
        }),
{
    lemma_ten_thousand();
    vstd::arithmetic::power2::lemma_pow2_pos(1074);
}

/// a city that is no capital is held against every city that is chosen already, capital or not, and the
/// first that overshadows it decides: if that one accounts for all of it, its people are added to that
/// one's, and otherwise it is left out.  it is chosen only if none does, and a capital is chosen in any
/// case.
pub proof fn law_the_first_bigger_city_decides(
    chosen: Seq<CityView>,
    city: CityView,
    prominence: Prominence,
)
    ensures
        city.is_capital || (forall|k: int|
            0 <= k < chosen.len() ==> !#[trigger] is_overshadowed(chosen, city, k, prominence))
            ==> considered(chosen, city, 0, prominence) == Some(chosen.push(city)),
        forall|k: int|
            !city.is_capital && 0 <= k < chosen.len() && #[trigger] is_overshadowed(
                chosen,
                city,
                k,
                prominence,
            ) && (forall|j: int|
                0 <= j < k ==> !#[trigger] is_overshadowed(chosen, city, j, prominence)) ==> {
                let outcome = considered(chosen, city, 0, prominence);
                if is_swallowed(chosen, city, k, prominence) {
                    if chosen[k].population + city.population > u32::MAX {
                        outcome is None
                    } else {
                        outcome == Some(
                            chosen.update(
                                k,
                                City {
                                    population: (chosen[k].population + city.population) as u32,
                                    ..chosen[k]
                                },
                            ),
                        )
                    }
                } else {
                    outcome == Some(chosen)
                }
            },
        !city.is_capital && considered(chosen, city, 0, prominence) == Some(chosen.push(city))
            ==> forall|k: int|
            0 <= k < chosen.len() ==> !#[trigger] is_overshadowed(chosen, city, k, prominence),
{
    if city.is_capital || (forall|k: int|
        0 <= k < chosen.len() ==> !#[trigger] is_overshadowed(chosen, city, k, prominence)) {
        lemma_considered_past(chosen, city, 0, chosen.len() as int, prominence);
    }
    assert forall|k: int|
        !city.is_capital && 0 <= k < chosen.len() && #[trigger] is_overshadowed(
            chosen,
            city,
            k,
            prominence,
        ) && (forall|j: int|
            0 <= j < k ==> !#[trigger] is_overshadowed(chosen, city, j, prominence)) implies {
        let outcome = considered(chosen, city, 0, prominence);
        if is_swallowed(chosen, city, k, prominence) {
            if chosen[k].population + city.population > u32::MAX {
                outcome is None
            } else {
                outcome == Some(
                    chosen.update(
                        k,
                        City {
                            population: (chosen[k].population + city.population) as u32,
                            ..chosen[k]
                        },
                    ),
                )
            }
        } else {
            outcome == Some(chosen)
        }
    } by {
        lemma_considered_past(chosen, city, 0, k, prominence);
        lemma_relationship(chosen, city, k, prominence);
    }
    if !city.is_capital && considered(chosen, city, 0, prominence) == Some(chosen.push(city)) {
        if exists|k: int|
            0 <= k < chosen.len() && #[trigger] is_overshadowed(chosen, city, k, prominence) {
            let k = choose|k: int|
                0 <= k < chosen.len() && #[trigger] is_overshadowed(chosen, city, k, prominence);
            let first = lemma_first_overshadowing(chosen, city, k, prominence);
            assert(is_overshadowed(chosen, city, first, prominence));
            assert(chosen.push(city).len() == chosen.len() + 1);
        }
    }
}

proof fn lemma_first_overshadowing(
    chosen: Seq<CityView>,
    city: CityView,
    k: int,
    prominence: Prominence,
) -> (first: int)
    requires
        0 <= k < chosen.len(),
        is_overshadowed(chosen, city, k, prominence),
    ensures
        0 <= first <= k,
        is_overshadowed(chosen, city, first, prominence),
        forall|j: int| 0 <= j < first ==> !#[trigger] is_overshadowed(chosen, city, j, prominence),
    decreases k,
{
    if exists|j: int| 0 <= j < k && #[trigger] is_overshadowed(chosen, city, j, prominence) {
        let j = choose|j: int|
            0 <= j < k && #[trigger] is_overshadowed(chosen, city, j, prominence);
        lemma_first_overshadowing(chosen, city, j, prominence)
    } else {
        k
    }
}

proof fn lemma_considered_past(
    chosen: Seq<CityView>,
    city: CityView,
    from: int,
    to: int,
    prominence: Prominence,
)
    requires
        0 <= from <= to <= chosen.len(),
        city.is_capital || (forall|j: int|
            from <= j < to ==> !#[trigger] is_overshadowed(chosen, city, j, prominence)),
    ensures
        considered(chosen, city, from, prominence) == considered(chosen, city, to, prominence),
        to == chosen.len() ==> considered(chosen, city, to, prominence) == Some(chosen.push(city)),
    decreases to - from,
{
    if from < to {
        lemma_relationship(chosen, city, from, prominence);
        assert(city.is_capital || !is_overshadowed(chosen, city, from, prominence));
        lemma_considered_past(chosen, city, from + 1, to, prominence);
    }
}

/// the cities are considered from the biggest to the smallest, each against those that have been chosen
/// by then, the biggest of these first
pub proof fn law_the_biggest_are_considered_first(
    cities: Seq<CityView>,
    city: CityView,
    prominence: Prominence,
)
    ensures
        chosen_in_turn(Seq::empty(), prominence) == Some(Seq::<CityView>::empty()),
        chosen_in_turn(cities.push(city), prominence) == (match chosen_in_turn(cities, prominence) {
            Some(before) => considered(by_size(before), city, 0, prominence),
            None => None,
        }),
        ({
            let picked = chosen_in_turn(by_size(cities), prominence);
            match chosen(cities, prominence) {
                Some(result) => picked is Some && result == by_size(picked->0),
                None => picked is None,
            }
        }),
{
    assert(cities.push(city).drop_last() =~= cities);
}

/// how many people live in the cities
pub open spec fn people(cities: Seq<CityView>) -> int
    decreases cities.len(),
{
    if cities.len() == 0 {
        0
    } else {
        people(cities.drop_last()) + cities.last().population
    }
}

/// a city is described by the columns of its record: its name, its state, its whole number of people,
/// and what tells it from others.  it is a capital if there is any mark that it is.  it is where its
/// point is.
pub proof fn law_cities_are_what_their_records_say(shape: ShapeRecordView)
    ensures
        city_in(shape) matches Ok(Some(city)) ==> {
            &&& lookup(shape.record, "NAME"@) == Some(FieldValue::Character(Some(city.name)))
            &&& lookup(shape.record, "STATE_ABBR"@) == Some(
                FieldValue::Character(Some(city.state_name)),
            )
            &&& lookup(shape.record, "PLACE_FIPS"@) == Some(FieldValue::Character(Some(city.id)))
            &&& lookup(shape.record, "POPULATION"@) matches Some(FieldValue::Numeric(Some(number)))
                && city.population == number.value.whole()
            &&& lookup(shape.record, "CAPITAL"@) matches Some(FieldValue::Character(mark))
                && city.is_capital == (mark is Some)
            &&& shape.shape.kind == ShapeType::Point
            &&& city.latitude == shape.shape.y_range.0
            &&& city.longitude == shape.shape.x_range.0
            &&& is_of_interest(city.state_name)
        },
        ({
            &&& lookup(shape.record, "NAME"@) matches Some(FieldValue::Character(Some(_)))
            &&& lookup(shape.record, "STATE_ABBR"@) matches Some(FieldValue::Character(Some(state)))
            &&& is_of_interest(state)
            &&& lookup(shape.record, "PLACE_FIPS"@) matches Some(FieldValue::Character(Some(_)))
            &&& lookup(shape.record, "POPULATION"@) matches Some(FieldValue::Numeric(Some(_)))
            &&& lookup(shape.record, "CAPITAL"@) matches Some(FieldValue::Character(_))
            &&& shape.shape.kind == ShapeType::Point
        }) ==> (city_in(shape) matches Ok(Some(_))),
{
    if let Some(FieldValue::Numeric(Some(number))) = lookup(shape.record, "POPULATION"@) {
        assert(0 <= number.value.whole() <= u32::MAX) by {
            crate::number::law_the_fraction_is_cut_off(number.value);
            vstd::arithmetic::power2::lemma_pow2_pos(1074);
            if !number.value.is_nan() && number.value.value() >= 0 {
                vstd::arithmetic::div_mod::lemma_div_pos_is_pos(
                    number.value.value(),
                    pow2(1074) as int,
                );
            }
        }
    }
}

/// a city is left out if its name, its state, its number of people or what tells it from others is
/// empty, or if it is in a state of no interest; but a column that isn't there is an error
pub proof fn law_incomplete_cities_are_left_out(shape: ShapeRecordView)
    ensures
        lookup(shape.record, "NAME"@) is None ==> city_in(shape) == Err::<Option<CityView>, _>(
            MapError::ColumnMissing { column: "NAME"@ },
        ),
        lookup(shape.record, "NAME"@) == Some(FieldValue::Character(None::<Seq<char>>)) ==> city_in(
            shape,
        ) == Ok::<_, MapError<Seq<char>>>(None::<CityView>),
        city_in(shape) is Ok && (lookup(shape.record, "STATE_ABBR"@) matches Some(
            FieldValue::Character(Some(state)),
        ) && !is_of_interest(state)) ==> city_in(shape) == Ok::<_, MapError<Seq<char>>>(
            None::<CityView>,
        ),
        city_in(shape) == Ok::<_, MapError<Seq<char>>>(None::<CityView>) ==> {
            ||| lookup(shape.record, "NAME"@) == Some(FieldValue::Character(None::<Seq<char>>))
            ||| lookup(shape.record, "STATE_ABBR"@) == Some(
                FieldValue::Character(None::<Seq<char>>),
            )
            ||| lookup(shape.record, "STATE_ABBR"@) matches Some(FieldValue::Character(Some(state)))
                && !is_of_interest(state)
            ||| lookup(shape.record, "PLACE_FIPS"@) == Some(
                FieldValue::Character(None::<Seq<char>>),
            )
            ||| lookup(shape.record, "POPULATION"@) matches Some(FieldValue::Numeric(None))
        },
{
}

/// the cities come in the order of their shapes, each at most once, and what is wrong with one shape
/// is wrong with the whole file
pub proof fn law_cities_are_read_in_order(before: Seq<ShapeRecordView>, shape: ShapeRecordView)
    ensures
        cities_in(Seq::empty()) == Ok::<_, MapError<Seq<char>>>(Seq::<CityView>::empty()),
        match cities_in(before) {
            Ok(cities) => match city_in(shape) {
                Ok(Some(city)) => cities_in(before.push(shape)) == Ok::<_, MapError<Seq<char>>>(
                    cities.push(city),
                ),
                Ok(None) => cities_in(before.push(shape)) == Ok::<_, MapError<Seq<char>>>(cities),
                Err(e) => cities_in(before.push(shape)) == Err::<Seq<CityView>, _>(e),
            },
            Err(e) => cities_in(before.push(shape)) == Err::<Seq<CityView>, _>(e),
        },
{
    assert(before.push(shape).drop_last() =~= before);
}

/// the states whose cities are chosen among are the thirteen from Maine to Virginia
pub proof fn law_the_states_of_interest(state: Seq<char>)
    ensures
        is_of_interest(state) <==> seq![
            "ME"@,
            "NH"@,
            "VT"@,
            "MA"@,
            "RI"@,
            "CT"@,
            "NY"@,
            "NJ"@,
            "PA"@,
            "DE"@,
            "MD"@,
            "DC"@,
            "VA"@,
        ].contains(state),
{
    let states = seq![
        "ME"@,
        "NH"@,
        "VT"@,
        "MA"@,
        "RI"@,
        "CT"@,
        "NY"@,
        "NJ"@,
        "PA"@,
        "DE"@,
        "MD"@,
        "DC"@,
        "VA"@,
    ];
    if is_of_interest(state) {
        assert(states[0] == "ME"@ && states[1] == "NH"@ && states[2] == "VT"@ && states[3] == "MA"@);
        assert(states[4] == "RI"@ && states[5] == "CT"@ && states[6] == "NY"@ && states[7] == "NJ"@);
        assert(states[8] == "PA"@ && states[9] == "DE"@ && states[10] == "MD"@ && states[11]
            == "DC"@);
        assert(states[12] == "VA"@);
    }
    if states.contains(state) {
        let i = choose|i: int| 0 <= i < states.len() && states[i] == state;
        assert(is_of_interest(states[i]));
    }
}

/// the list of the cities has each of them once, in quotes, in order
pub proof fn law_lists_have_each_city(cities: Seq<CityView>, city: CityView)
    ensures
        description(city) == city.id + ": "@ + city.name + ", "@ + city.state_name,
        id_list(Seq::empty()) == "[]"@,
        id_list(seq![city]) == "[\""@ + city.id + "\"]"@,
        cities.len() > 0 ==> id_list(cities.push(city)) == id_list(cities).drop_last() + ", \""@
            + city.id + "\"]"@,
{
    reveal_strlit("[");
    reveal_strlit("]");
    reveal_strlit("[]");
    reveal_strlit("[\"");
    reveal_strlit("\"]");
    reveal_strlit("\"");
    reveal_strlit(", \"");
    reveal_strlit(", ");
    let quoted = |city: CityView| "\""@ + city.id + "\""@;
    assert(Seq::<CityView>::empty().map_values(quoted) =~= Seq::empty());
    assert(id_list(Seq::empty()) =~= "[]"@);
    let one = seq![city].map_values(quoted);
    assert(one[0] == "\""@ + city.id + "\""@);
    assert(id_list(seq![city]) =~= "[\""@ + city.id + "\"]"@);
    if cities.len() > 0 {
        let all = cities.push(city).map_values(quoted);
        assert(all.drop_last() =~= cities.map_values(quoted));
        assert(all.last() == "\""@ + city.id + "\""@);
        assert(id_list(cities.push(city)) =~= id_list(cities).drop_last() + ", \""@ + city.id
            + "\"]"@);
    }
}

proof fn lemma_people_sorted(cities: Seq<CityView>)
    ensures
        people(by_size(cities)) == people(cities),
    decreases cities.len(),
{
    if cities.len() > 0 {
        lemma_people_sorted(cities.drop_last());
        lemma_people_with(by_size(cities.drop_last()), cities.last());
    }
}

proof fn lemma_people_with(cities: Seq<CityView>, city: CityView)
    ensures
        people(with_city(cities, city)) == people(cities) + city.population,
    decreases cities.len(),
{
    if cities.len() == 0 || cities.last().population >= city.population {
        assert(cities.push(city).drop_last() =~= cities);
    } else {
        lemma_people_with(cities.drop_last(), city);
        let more = with_city(cities.drop_last(), city);
        assert(more.push(cities.last()).drop_last() =~= more);
    }
}

proof fn lemma_people_grow(cities: Seq<CityView>, k: int, city: CityView)
    requires
        0 <= k < cities.len(),
    ensures
        people(cities.update(k, city)) == people(cities) - cities[k].population + city.population,
    decreases cities.len(),
{
    let rest = cities.drop_last();
    if k == cities.len() - 1 {
        assert(cities.update(k, city).drop_last() =~= rest);
    } else {
        lemma_people_grow(rest, k, city);
        assert(cities.update(k, city).drop_last() =~= rest.update(k, city));
    }
}

proof fn lemma_people_considered(
    chosen: Seq<CityView>,
    city: CityView,
    k: int,
    prominence: Prominence,
)
    requires
        0 <= k,
    ensures
        considered(chosen, city, k, prominence) matches Some(result) ==> people(result) == people(
            chosen,
        ) + city.population || result == chosen,
    decreases chosen.len() - k,
{
    if k >= chosen.len() {
        assert(chosen.push(city).drop_last() =~= chosen);
    } else {
        lemma_people_considered(chosen, city, k + 1, prominence);
        lemma_people_grow(chosen, k, grown(chosen[k], city.population));
    }
}

/// nobody is counted twice: a city's people are counted in the city itself, or in the one that it is
/// merged into, or not at all if it is left out
pub proof fn law_nobody_is_counted_twice(cities: Seq<CityView>, prominence: Prominence)
    ensures
        chosen(cities, prominence) matches Some(result) ==> people(result) <= people(cities),
{
    lemma_people_in_turn(by_size(cities), prominence);
    lemma_people_sorted(cities);
    if let Some(picked) = chosen_in_turn(by_size(cities), prominence) {
        lemma_people_sorted(picked);
    }
}

proof fn lemma_people_in_turn(cities: Seq<CityView>, prominence: Prominence)
    ensures
        chosen_in_turn(cities, prominence) matches Some(result) ==> people(result) <= people(
            cities,
        ),
    decreases cities.len(),
{
    if cities.len() > 0 {
        lemma_people_in_turn(cities.drop_last(), prominence);
        if let Some(before) = chosen_in_turn(cities.drop_last(), prominence) {
            lemma_people_sorted(before);
            lemma_people_considered(by_size(before), cities.last(), 0, prominence);
        }
    }
}

/// the columns are looked at one after another: the name, the state, the number of people, the mark of a
/// capital and what tells the city from others.  the first that isn't there or that holds the wrong type
/// of value is the one that is said to be wrong.  a shape that isn't a point is wrong even if the city is
/// in a state of no interest.
pub proof fn law_the_first_wrong_column_is_reported(shape: ShapeRecordView)
    ensures
        ({
            let name = lookup(shape.record, "NAME"@);
            let state = lookup(shape.record, "STATE_ABBR"@);
            let population = lookup(shape.record, "POPULATION"@);
            let mark = lookup(shape.record, "CAPITAL"@);
            let id = lookup(shape.record, "PLACE_FIPS"@);
            let named = name matches Some(FieldValue::Character(Some(_)));
            let located = named && state matches Some(FieldValue::Character(Some(_)));
            let counted = located && population matches Some(FieldValue::Numeric(Some(_)));
            let marked = counted && mark matches Some(FieldValue::Character(_));
            let known = marked && id matches Some(FieldValue::Character(Some(_)));
            let city = city_in(shape);
            &&& name is None ==> city == Err::<Option<CityView>, _>(
                MapError::ColumnMissing { column: "NAME"@ },
            )
            &&& (name matches Some(other) ==> other !is Character ==> city == Err::<
                Option<CityView>,
                _,
            >(MapError::ColumnNotText { column: "NAME"@, found: other.type_title() }))
            &&& named && state is None ==> city == Err::<Option<CityView>, _>(
                MapError::ColumnMissing { column: "STATE_ABBR"@ },
            )
            &&& (named && state is Some && state->0 !is Character ==> city == Err::<
                Option<CityView>,
                _,
            >(MapError::ColumnNotText { column: "STATE_ABBR"@, found: state->0.type_title() }))
            &&& located && population is None ==> city == Err::<Option<CityView>, _>(
                MapError::ColumnMissing { column: "POPULATION"@ },
            )
            &&& located && population is Some && population->0 !is Numeric ==> city == Err::<
                Option<CityView>,
                _,
            >(
                MapError::ColumnNotNumeric {
                    column: "POPULATION"@,
                    found: population->0.type_title(),
                },
            )
            &&& counted && mark is None ==> city == Err::<Option<CityView>, _>(
                MapError::ColumnMissing { column: "CAPITAL"@ },
            )
            &&& counted && mark is Some && mark->0 !is Character ==> city == Err::<
                Option<CityView>,
                _,
            >(MapError::ColumnNotFlag { column: "CAPITAL"@, found: mark->0.type_title() })
            &&& marked && id is None ==> city == Err::<Option<CityView>, _>(
                MapError::ColumnMissing { column: "PLACE_FIPS"@ },
            )
            &&& marked && id is Some && id->0 !is Character ==> city == Err::<
                Option<CityView>,
                _,
            >(MapError::ColumnNotNumeric { column: "PLACE_FIPS"@, found: id->0.type_title() })
            &&& known && shape.shape.kind != ShapeType::Point ==> city == Err::<
                Option<CityView>,
                _,
            >(MapError::NotPoints { found: shape.shape.kind.title() })
        }),
{
    reveal_strlit("NAME");
    reveal_strlit("STATE_ABBR");
    reveal_strlit("CAPITAL");
    reveal_strlit("PLACE_FIPS");
    assert("NAME"@.len() == 4 && "STATE_ABBR"@.len() == 10 && "CAPITAL"@.len() == 7
        && "PLACE_FIPS"@.len() == 10);
    assert("STATE_ABBR"@[0] != "PLACE_FIPS"@[0]);
}

} // verus!
