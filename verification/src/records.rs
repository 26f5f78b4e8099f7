//! The records that come with shapes, and the filters that choose among them.

use crate::errors::{Failure, MapError};
use crate::number::Number;
use crate::text::views;
use vstd::prelude::*;

verus! {

/// a number from a record, and how it is written
#[derive(Debug)]
pub struct Numeral<S> {
    pub value: Number,
    /// the shortest decimal that stands for the number
    pub text: S,
}

/// what a field of a record holds.  `S` is a string, or in specifications what a string holds.
#[derive(Debug)]
pub enum FieldValue<S> {
    Character(Option<S>),
    Numeric(Option<Numeral<S>>),
    Logical,
    Date,
    Float(Option<Number>),
    Integer,
    Currency,
    DateTime,
    Double,
    Memo,
}

impl<S> FieldValue<S> {
    /// what the type of the field is called
    pub open spec fn type_title(self) -> Seq<char> {
        match self {
            FieldValue::Character(_) => "dbase::Character"@,
            FieldValue::Numeric(_) => "dbase::Numeric"@,
            FieldValue::Logical => "dbase::Logical"@,
            FieldValue::Date => "dbase::Date"@,
            FieldValue::Float(_) => "dbase::Float"@,
            FieldValue::Integer => "dbase::Integer"@,
            FieldValue::Currency => "dbase::Currency"@,
            FieldValue::DateTime => "dbase::DateTime"@,
            FieldValue::Double => "dbase::Double"@,
            FieldValue::Memo => "dbase::Memo"@,
        }
    }

    /// what the type of the field is called
    pub fn field_type(&self) -> (s: String)
        ensures
            s@ == self.type_title(),
    {
        let s = match self {
            FieldValue::Character(_) => "dbase::Character",
            FieldValue::Numeric(_) => "dbase::Numeric",
            FieldValue::Logical => "dbase::Logical",
            FieldValue::Date => "dbase::Date",
            FieldValue::Float(_) => "dbase::Float",
            FieldValue::Integer => "dbase::Integer",
            FieldValue::Currency => "dbase::Currency",
            FieldValue::DateTime => "dbase::DateTime",
            FieldValue::Double => "dbase::Double",
            FieldValue::Memo => "dbase::Memo",
        };
        s.to_owned()
    }
}

impl View for FieldValue<String> {
    type V = FieldValue<Seq<char>>;

    open spec fn view(&self) -> FieldValue<Seq<char>> {
        match *self {
            FieldValue::Character(Some(s)) => FieldValue::Character(Some(s@)),
            FieldValue::Character(None) => FieldValue::Character(None),
            FieldValue::Numeric(Some(n)) => FieldValue::Numeric(
                Some(Numeral { value: n.value, text: n.text@ }),
            ),
            FieldValue::Numeric(None) => FieldValue::Numeric(None),
            FieldValue::Logical => FieldValue::Logical,
            FieldValue::Date => FieldValue::Date,
            FieldValue::Float(n) => FieldValue::Float(n),
            FieldValue::Integer => FieldValue::Integer,
            FieldValue::Currency => FieldValue::Currency,
            FieldValue::DateTime => FieldValue::DateTime,
            FieldValue::Double => FieldValue::Double,
            FieldValue::Memo => FieldValue::Memo,
        }
    }
}

/// a field of a record
#[derive(Debug)]
pub struct Field {
    pub name: String,
    pub value: FieldValue<String>,
}

/// what a record says of a shape, field by field
#[derive(Debug)]
pub struct Record {
    pub fields: Vec<Field>,
}

/// what a record holds: the name and the value of each field
pub type RecordView = Seq<(Seq<char>, FieldValue<Seq<char>>)>;

impl View for Record {
    type V = RecordView;

    open spec fn view(&self) -> RecordView {
        self.fields@.map_values(|field: Field| (field.name@, field.value@))
    }
}

/// whether no two fields have the same name
pub open spec fn has_distinct_names(record: RecordView) -> bool {
    forall|i: int, j: int|
        0 <= i < j < record.len() ==> (#[trigger] record[i]).0 != (#[trigger] record[j]).0
}

/// the value of the first field with this name
pub open spec fn lookup(record: RecordView, name: Seq<char>) -> Option<FieldValue<Seq<char>>>
    decreases record.len(),
{
    if record.len() == 0 {
        None
    } else if record[0].0 == name {
        Some(record[0].1)
    } else {
        lookup(record.drop_first(), name)
    }
}

/// in a record without two fields of the same name, the order of the fields makes no difference:
/// a name's value is that of the one field that has it
pub proof fn law_lookup_finds_the_field(record: RecordView, name: Seq<char>, i: int)
    requires
        has_distinct_names(record),
        0 <= i < record.len(),
        record[i].0 == name,
    ensures
        lookup(record, name) == Some(record[i].1),
    decreases record.len(),
{
    if i > 0 {
        assert(record[0].0 != name);
        let rest = record.drop_first();
        assert(rest[i - 1] == record[i]);
        assert forall|j: int, k: int| 0 <= j < k < rest.len() implies (#[trigger] rest[j]).0 != (
        #[trigger] rest[k]).0 by {
            assert(rest[j] == record[j + 1]);
            assert(rest[k] == record[k + 1]);
        }
        law_lookup_finds_the_field(rest, name, i - 1);
    }
}

impl Record {
    /// the value of the first field with this name
    pub fn get(&self, name: &str) -> (r: Option<&FieldValue<String>>)
        ensures
            match r {
                Some(value) => lookup(self@, name@) == Some(value@),
                None => lookup(self@, name@) is None,
            },
    {
        let wanted = name.to_owned();
        assert(self@.skip(0) =~= self@);
        for i in 0..self.fields.len()
            invariant
                wanted@ == name@,
                lookup(self@, name@) == lookup(self@.skip(i as int), name@),
        {
            assert(self@.skip(i as int)[0] == (self.fields@[i as int].name@, self.fields@[i as int].value@));
            assert(self@.skip(i as int).drop_first() =~= self@.skip(i + 1));
            if self.fields[i].name == wanted {
                return Some(&self.fields[i].value);
            }
        }
        None
    }
}

/// a condition on records
#[derive(Debug)]
pub enum Filter {
    /// check that a record value is one of the values in the given list
    OneOf { key: String, valid_values: Vec<String> },
    /// check that a record value is greater than a threshold
    GreaterThan { key: String, cutoff: Number },
    /// the inverse of some other given Filter
    Not { filter: Box<Filter> },
    /// check that any of the given Filters matches
    Either { filters: Vec<Filter> },
}

/// what a filter holds
pub enum FilterView {
    OneOf { key: Seq<char>, valid_values: Seq<Seq<char>> },
    GreaterThan { key: Seq<char>, cutoff: Number },
    Not { filter: Box<FilterView> },
    Either { filters: Seq<FilterView> },
}

/// what a filter holds
pub open spec fn filter_view(filter: Filter) -> FilterView
    decreases filter,
{
    match filter {
        Filter::OneOf { key, valid_values } => FilterView::OneOf {
            key: key@,
            valid_values: views(valid_values@),
        },
        Filter::GreaterThan { key, cutoff } => FilterView::GreaterThan { key: key@, cutoff },
        Filter::Not { filter } => FilterView::Not { filter: Box::new(filter_view(*filter)) },
        Filter::Either { filters } => FilterView::Either { filters: filters_view(filters@) },
    }
}

/// what each of the filters holds
pub open spec fn filters_view(filters: Seq<Filter>) -> Seq<FilterView>
    decreases filters,
{
    if filters.len() == 0 {
        Seq::empty()
    } else {
        seq![filter_view(filters[0])] + filters_view(filters.drop_first())
    }
}

/// whether the record meets the condition, or why that can't be said
pub open spec fn meets(filter: FilterView, record: RecordView) -> Result<
    bool,
    MapError<Seq<char>>,
>
    decreases filter,
{
    match filter {
        FilterView::OneOf { key, valid_values } => match lookup(record, key) {
            None => Err(MapError::FilterFieldMissing { key }),
            Some(FieldValue::Numeric(Some(n))) => Ok(valid_values.contains(n.text)),
            Some(FieldValue::Numeric(None)) => Ok(false),
            Some(FieldValue::Character(Some(s))) => Ok(valid_values.contains(s)),
            Some(FieldValue::Character(None)) => Ok(false),
            Some(_) => Err(MapError::FilterFieldType),
        },
        FilterView::GreaterThan { key, cutoff } => match lookup(record, key) {
            None => Err(MapError::FilterFieldMissing { key }),
            Some(FieldValue::Numeric(Some(n))) => Ok(cutoff.below(n.value)),
            Some(FieldValue::Float(Some(n))) => Ok(cutoff.below(n)),
            Some(FieldValue::Float(None)) => Ok(false),
            Some(other) => Err(
                MapError::FilterNotNumeric { key, field_type: other.type_title() },
            ),
        },
        FilterView::Not { filter } => match meets(*filter, record) {
            Ok(value) => Ok(!value),
            Err(e) => Err(e),
        },
        FilterView::Either { filters } => meets_any(filters, record),
    }
}

/// whether the record meets one of the conditions, as far as they have to be looked at
pub open spec fn meets_any(filters: Seq<FilterView>, record: RecordView) -> Result<
    bool,
    MapError<Seq<char>>,
>
    decreases filters,
{
    if filters.len() == 0 {
        Ok(false)
    } else {
        match meets(filters[0], record) {
            Ok(false) => meets_any(filters.drop_first(), record),
            other => other,
        }
    }
}

/// whether the record meets all of the conditions, as far as they have to be looked at
pub open spec fn meets_all(filters: Seq<FilterView>, record: RecordView) -> Result<
    bool,
    MapError<Seq<char>>,
>
    decreases filters,
{
    if filters.len() == 0 {
        Ok(true)
    } else {
        match meets(filters[0], record) {
            Ok(true) => meets_all(filters.drop_first(), record),
            other => other,
        }
    }
}

/// what the outcome of a test holds
pub open spec fn verdict_view(r: Result<bool, Failure>) -> Result<bool, MapError<Seq<char>>> {
    match r {
        Ok(b) => Ok(b),
        Err(e) => Err(e@),
    }
}

fn contains(values: &Vec<String>, value: &String) -> (b: bool)
    ensures
        b == views(values@).contains(value@),
{
    for i in 0..values.len()
        invariant
            forall|j: int| 0 <= j < i ==> views(values@)[j] != value@,
    {
        if values[i] == *value {
            assert(views(values@)[i as int] == value@);
            return true;
        }
    }
    false
}

proof fn lemma_filters_view(filters: Seq<Filter>, i: int)
    requires
        0 <= i < filters.len(),
    ensures
        filters_view(filters.skip(i)) == seq![filter_view(filters[i])] + filters_view(
            filters.skip(i + 1),
        ),
{
    assert(filters.skip(i).drop_first() =~= filters.skip(i + 1));
    assert(filters.skip(i)[0] == filters[i]);
}

impl View for Filter {
    type V = FilterView;

    open spec fn view(&self) -> FilterView {
        filter_view(*self)
    }
}

impl Filter {
    /// whether the record meets the condition
    pub fn matches(&self, record: &Record) -> (r: Result<bool, Failure>)
        ensures
            verdict_view(r) == meets(self@, record@),
        decreases self,
    {
        match self {
            Filter::OneOf { key, valid_values } => {
                match record.get(key.as_str()) {
                    None => Err(MapError::FilterFieldMissing { key: key.clone() }),
                    Some(FieldValue::Numeric(Some(n))) => Ok(contains(valid_values, &n.text)),
                    Some(FieldValue::Numeric(None)) => Ok(false),
                    Some(FieldValue::Character(Some(s))) => Ok(contains(valid_values, s)),
                    Some(FieldValue::Character(None)) => Ok(false),
                    Some(_) => Err(MapError::FilterFieldType),
                }
            },
            Filter::GreaterThan { key, cutoff } => {
                match record.get(key.as_str()) {
                    None => Err(MapError::FilterFieldMissing { key: key.clone() }),
                    Some(FieldValue::Numeric(Some(n))) => Ok(cutoff.less_than(n.value)),
                    Some(FieldValue::Float(Some(n))) => Ok(cutoff.less_than(*n)),
                    Some(FieldValue::Float(None)) => Ok(false),
                    Some(other) => Err(
                        MapError::FilterNotNumeric {
                            key: key.clone(),
                            field_type: other.field_type(),
                        },
                    ),
                }
            },
            Filter::Not { filter } => {
                match filter.matches(record) {
                    Ok(value) => Ok(!value),
                    Err(e) => Err(e),
                }
            },
            Filter::Either { filters } => {
                assert(filters@.skip(0) =~= filters@);
                for i in 0..filters.len()
                    invariant
                        *self == (Filter::Either { filters: *filters }),
                        meets_any(filters_view(filters@), record@) == meets_any(
                            filters_view(filters@.skip(i as int)),
                            record@,
                        ),
                {
                    proof {
                        lemma_filters_view(filters@, i as int);
                        let left = filters_view(filters@.skip(i as int));
                        assert(left.drop_first() =~= filters_view(filters@.skip(i + 1)));
                    }
                    match filters[i].matches(record) {
                        Ok(true) => {
                            return Ok(true);
                        },
                        Ok(false) => {},
                        Err(e) => {
                            return Err(e);
                        },
                    }
                }
                assert(filters@.skip(filters@.len() as int) =~= Seq::<Filter>::empty());
                Ok(false)
            },
        }
    }
}

/// whether the record meets all of the conditions
pub fn matches_all(filters: &Vec<Filter>, record: &Record) -> (r: Result<bool, Failure>)
    ensures
        verdict_view(r) == meets_all(filters_view(filters@), record@),
{
    assert(filters@.skip(0) =~= filters@);
    for i in 0..filters.len()
        invariant
            meets_all(filters_view(filters@), record@) == meets_all(
                filters_view(filters@.skip(i as int)),
                record@,
            ),
    {
        proof {
            lemma_filters_view(filters@, i as int);
            let left = filters_view(filters@.skip(i as int));
            assert(left.drop_first() =~= filters_view(filters@.skip(i + 1)));
        }
        match filters[i].matches(record) {
            Ok(true) => {},
            Ok(false) => {
                return Ok(false);
            },
            Err(e) => {
                return Err(e);
            },
        }
    }
    assert(filters@.skip(filters@.len() as int) =~= Seq::<Filter>::empty());
    Ok(true)
}

/// the inverse of the inverse of a filter is the filter
pub proof fn law_double_negation(filter: FilterView, record: RecordView)
    ensures
        meets(
            FilterView::Not { filter: Box::new(FilterView::Not { filter: Box::new(filter) }) },
            record,
        ) == meets(filter, record),
{
    reveal_with_fuel(meets, 3);
}

/// if all of the filters can be decided, a record meets one of a list of filters just if there is
/// one in the list that it meets, and meets all of them just if there is none that it doesn't
pub proof fn law_lists_of_filters(filters: Seq<FilterView>, record: RecordView)
    requires
        forall|i: int| 0 <= i < filters.len() ==> meets(#[trigger] filters[i], record) is Ok,
    ensures
        meets_any(filters, record) == Ok::<bool, MapError<Seq<char>>>(
            exists|i: int| 0 <= i < filters.len() && meets(#[trigger] filters[i], record) == Ok::<
                bool,
                MapError<Seq<char>>,
            >(true),
        ),
        meets_all(filters, record) == Ok::<bool, MapError<Seq<char>>>(
            forall|i: int| 0 <= i < filters.len() ==> meets(#[trigger] filters[i], record) == Ok::<
                bool,
                MapError<Seq<char>>,
            >(true),
        ),
    decreases filters.len(),
{
    if filters.len() > 0 {
        let rest = filters.drop_first();
        assert forall|i: int| 0 <= i < rest.len() implies meets(#[trigger] rest[i], record) is Ok by {
            assert(rest[i] == filters[i + 1]);
        }
        law_lists_of_filters(rest, record);
        assert forall|i: int| 1 <= i < filters.len() implies #[trigger] filters[i] == rest[i - 1] by {}
        if meets(filters[0], record) == Ok::<bool, MapError<Seq<char>>>(false) {
            if exists|i: int| 0 <= i < rest.len() && meets(#[trigger] rest[i], record) == Ok::<
                bool,
                MapError<Seq<char>>,
            >(true) {
                let i = choose|i: int| 0 <= i < rest.len() && meets(#[trigger] rest[i], record)
                    == Ok::<bool, MapError<Seq<char>>>(true);
                assert(filters[i + 1] == rest[i]);
            }
        }
        if meets(filters[0], record) == Ok::<bool, MapError<Seq<char>>>(true) {
            if !(forall|i: int| 0 <= i < rest.len() ==> meets(#[trigger] rest[i], record) == Ok::<
                bool,
                MapError<Seq<char>>,
            >(true)) {
                let i = choose|i: int| 0 <= i < rest.len() && meets(#[trigger] rest[i], record)
                    != Ok::<bool, MapError<Seq<char>>>(true);
                assert(filters[i + 1] == rest[i]);
            }
        }
    }
}

/// a field that no record has is not found
pub proof fn law_missing_fields_are_not_found(record: RecordView, name: Seq<char>)
    ensures
        lookup(record, name) is None <==> forall|i: int|
            0 <= i < record.len() ==> (#[trigger] record[i]).0 != name,
    decreases record.len(),
{
    if record.len() > 0 && record[0].0 != name {
        let rest = record.drop_first();
        law_missing_fields_are_not_found(rest, name);
        assert forall|i: int| 1 <= i < record.len() implies #[trigger] record[i] == rest[i - 1] by {}
        if lookup(record, name) is None {
            assert forall|i: int| 0 <= i < record.len() implies (#[trigger] record[i]).0 != name by {
                if i > 0 {
                    assert(rest[i - 1].0 != name);
                }
            }
        } else {
            let i = choose|i: int| 0 <= i < rest.len() && (#[trigger] rest[i]).0 == name;
            assert(record[i + 1].0 == name);
        }
    }
}

/// a record value is one of those in a list just if it is written like one of them.  what is empty is
/// none of them, and what is neither a number nor text can't be looked for.
pub proof fn law_values_are_looked_for_as_written(
    key: Seq<char>,
    valid_values: Seq<Seq<char>>,
    record: RecordView,
)
    ensures
        ({
            let outcome = meets(FilterView::OneOf { key, valid_values }, record);
            match lookup(record, key) {
                Some(FieldValue::Character(Some(text))) => outcome == Ok::<
                    _,
                    MapError<Seq<char>>,
                >(exists|i: int| 0 <= i < valid_values.len() && #[trigger] valid_values[i] == text),
                Some(FieldValue::Numeric(Some(number))) => outcome == Ok::<
                    _,
                    MapError<Seq<char>>,
                >(
                    exists|i: int|
                        0 <= i < valid_values.len() && #[trigger] valid_values[i] == number.text,
                ),
                Some(FieldValue::Character(None)) => outcome == Ok::<_, MapError<Seq<char>>>(false),
                Some(FieldValue::Numeric(None)) => outcome == Ok::<_, MapError<Seq<char>>>(false),
                Some(_) => outcome == Err::<bool, _>(MapError::<Seq<char>>::FilterFieldType),
                None => outcome == Err::<bool, _>(MapError::FilterFieldMissing { key }),
            }
        }),
{
    if let Some(FieldValue::Character(Some(text))) = lookup(record, key) {
        if valid_values.contains(text) {
            let i = choose|i: int| 0 <= i < valid_values.len() && valid_values[i] == text;
            assert(valid_values[i] == text);
        }
    }
    if let Some(FieldValue::Numeric(Some(number))) = lookup(record, key) {
        if valid_values.contains(number.text) {
            let i = choose|i: int| 0 <= i < valid_values.len() && valid_values[i] == number.text;
            assert(valid_values[i] == number.text);
        }
    }
}

/// a number is greater than a cutoff only if it really is: not if it is the same, nor if one of them is
/// not a number.  only numbers can be compared.
pub proof fn law_greater_means_greater(key: Seq<char>, cutoff: Number, record: RecordView)
    ensures
        ({
            let outcome = meets(FilterView::GreaterThan { key, cutoff }, record);
            match lookup(record, key) {
                Some(FieldValue::Numeric(Some(number))) => outcome == Ok::<
                    _,
                    MapError<Seq<char>>,
                >(
                    !cutoff.is_nan() && !number.value.is_nan() && number.value.value()
                        > cutoff.value(),
                ),
                Some(FieldValue::Float(Some(number))) => outcome == Ok::<_, MapError<Seq<char>>>(
                    !cutoff.is_nan() && !number.is_nan() && number.value() > cutoff.value(),
                ),
                Some(FieldValue::Float(None)) => outcome == Ok::<_, MapError<Seq<char>>>(false),
                Some(other) => outcome == Err::<bool, _>(
                    MapError::FilterNotNumeric { key, field_type: other.type_title() },
                ),
                None => outcome == Err::<bool, _>(MapError::FilterFieldMissing { key }),
            }
        }),
{
}

/// the inverse of a filter lets pass what the filter doesn't, and can be decided just where the filter
/// can
pub proof fn law_the_inverse_is_the_inverse(filter: FilterView, record: RecordView)
    ensures
        ({
            let inverse = meets(FilterView::Not { filter: Box::new(filter) }, record);
            match meets(filter, record) {
                Ok(b) => inverse == Ok::<_, MapError<Seq<char>>>(!b),
                Err(e) => inverse == Err::<bool, _>(e),
            }
        }),
{
}

/// of a list of filters, those after the first that decides are not looked at: one that matches, where
/// any will do, or one that doesn't, where all must; or one that can't be decided
pub proof fn law_the_first_that_decides_counts(
    filters: Seq<FilterView>,
    record: RecordView,
    i: int,
)
    requires
        0 <= i < filters.len(),
    ensures
        (forall|j: int|
            0 <= j < i ==> meets(#[trigger] filters[j], record) == Ok::<_, MapError<Seq<char>>>(
                false,
            )) && meets(filters[i], record) != Ok::<_, MapError<Seq<char>>>(false) ==> meets(
            FilterView::Either { filters },
            record,
        ) == meets(filters[i], record),
        (forall|j: int|
            0 <= j < i ==> meets(#[trigger] filters[j], record) == Ok::<_, MapError<Seq<char>>>(
                true,
            )) && meets(filters[i], record) != Ok::<_, MapError<Seq<char>>>(true) ==> meets_all(
            filters,
            record,
        ) == meets(filters[i], record),
    decreases filters.len(),
{
    lemma_first_that_decides(filters, record, i);
}

proof fn lemma_first_that_decides(filters: Seq<FilterView>, record: RecordView, i: int)
    requires
        0 <= i < filters.len(),
    ensures
        (forall|j: int|
            0 <= j < i ==> meets(#[trigger] filters[j], record) == Ok::<_, MapError<Seq<char>>>(
                false,
            )) && meets(filters[i], record) != Ok::<_, MapError<Seq<char>>>(false) ==> meets_any(
            filters,
            record,
        ) == meets(filters[i], record),
        (forall|j: int|
            0 <= j < i ==> meets(#[trigger] filters[j], record) == Ok::<_, MapError<Seq<char>>>(
                true,
            )) && meets(filters[i], record) != Ok::<_, MapError<Seq<char>>>(true) ==> meets_all(
            filters,
            record,
        ) == meets(filters[i], record),
    decreases filters.len(),
{
    if i > 0 {
        let rest = filters.drop_first();
        lemma_first_that_decides(rest, record, i - 1);
        assert(rest[i - 1] == filters[i]);
        if forall|j: int|
            0 <= j < i ==> meets(#[trigger] filters[j], record) == Ok::<_, MapError<Seq<char>>>(
                false,
            ) {
            assert forall|j: int| 0 <= j < i - 1 implies meets(#[trigger] rest[j], record) == Ok::<
                _,
                MapError<Seq<char>>,
            >(false) by {
                assert(rest[j] == filters[j + 1]);
            }
            assert(meets(filters[0], record) == Ok::<_, MapError<Seq<char>>>(false));
        }
        if forall|j: int|
            0 <= j < i ==> meets(#[trigger] filters[j], record) == Ok::<_, MapError<Seq<char>>>(
                true,
            ) {
            assert forall|j: int| 0 <= j < i - 1 implies meets(#[trigger] rest[j], record) == Ok::<
                _,
                MapError<Seq<char>>,
            >(true) by {
                assert(rest[j] == filters[j + 1]);
            }
            assert(meets(filters[0], record) == Ok::<_, MapError<Seq<char>>>(true));
        }
    }
}

} // verus!
