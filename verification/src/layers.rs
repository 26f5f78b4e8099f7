//! Resolving layers into groups of shapes.

use crate::content::{
    contents_view, copy_parts, lemma_contents_view, Content, ContentView, Layer, LayerView,
    ShapeRecord, ShapeRecordView, ShapefileView,
};
use crate::errors::{Failure, MapError};
use crate::geometry::{
    any_of_shape_is_in_box, center_of, parts_view, Rect, SerializablePoint, ShapeType, ShapeView,
};
use crate::labels::{label, label_text};
use crate::markers::{indentation_is_usable, marker_detail, try_load_SVG};
use crate::markup::{css_class, join_words, sanitize_CSS, without_spaces};
use crate::number::Number;
use crate::records::{lookup, matches_all, meets_all, FieldValue, Record, RecordView};
use crate::text::opt_view;
use vstd::prelude::*;
use vstd::string::StringExecFns;

verus! {

/// what comes of loading something: either what it is resolved into, or an error, or nothing at
/// all if it is such that it can't be worked on
pub type Outcome<T> = Option<Result<T, MapError<Seq<char>>>>;

/// why the options of a layer don't go together, if they don't
pub open spec fn objection(layer: LayerView) -> Option<MapError<Seq<char>>> {
    if layer.label_column is Some && layer.marker_name is Some {
        Some(MapError::LabelAndMarker)
    } else if layer.label_column is None && layer.case is Some {
        Some(MapError::CaseWithoutLabel)
    } else if layer.label_column is None && layer.abbr is Some {
        Some(MapError::AbbrWithoutLabel)
    } else if layer.marker_name is None && layer.size is Some {
        Some(MapError::SizeWithoutMarker)
    } else if layer.marker_name is Some && layer.self_clip is Some {
        Some(MapError::SelfClipWithMarker)
    } else if layer.marker_name is Some && layer.size is None {
        Some(MapError::NoMarkerSize { filename: layer.filename })
    } else {
        None
    }
}

/// the detail and the size of the marker that stands for each shape of a layer, if there is one
pub open spec fn marker_data(layer: LayerView) -> Outcome<Option<(Seq<char>, Number)>> {
    match (layer.marker_name, layer.size) {
        (Some(name), Some(size)) => if indentation_is_usable(layer.marker_file) {
            match marker_detail(name, layer.marker_file) {
                Ok(detail) => Some(Ok(Some((detail, size)))),
                Err(e) => Some(Err(e)),
            }
        } else {
            None
        },
        _ => Some(Ok(None)),
    }
}

/// the class that a layer gives to a shape with this record
pub open spec fn shape_class(layer: LayerView, record: RecordView) -> Result<
    Option<Seq<char>>,
    MapError<Seq<char>>,
> {
    match layer.class_column {
        Some(column) => match lookup(record, column) {
            Some(FieldValue::Character(Some(text))) => Ok(Some(without_spaces(css_class(text)))),
            Some(FieldValue::Character(None)) => Ok(None),
            Some(FieldValue::Numeric(Some(number))) => Ok(
                Some(css_class(column) + "_"@ + number.text),
            ),
            Some(FieldValue::Numeric(None)) => Ok(None),
            Some(_) => Err(MapError::ClassFieldType),
            None => Err(
                MapError::ClassColumnMissing { column, filename: layer.filename },
            ),
        },
        None => Ok(None),
    }
}

/// whether each of the polylines has a point
pub open spec fn are_inhabited(parts: Seq<Seq<SerializablePoint>>) -> bool {
    forall|i: int| 0 <= i < parts.len() ==> (#[trigger] parts[i]).len() > 0
}

/// the path that a layer makes of a shape
pub open spec fn as_path(
    layer: LayerView,
    shape: ShapeView,
    class: Option<Seq<char>>,
) -> Outcome<ContentView> {
    if shape.kind == ShapeType::Polygon || shape.kind == ShapeType::Polyline || shape.kind
        == ShapeType::PolylineM {
        if layer.decimation is None || are_inhabited(shape.parts) {
            Some(
                Ok(
                    ContentView::Path {
                        parts: shape.parts,
                        closed: shape.kind == ShapeType::Polygon,
                        self_clip: layer.self_clip == Some(true),
                        decimation: layer.decimation,
                        class,
                    },
                ),
            )
        } else {
            None
        }
    } else if shape.kind == ShapeType::Point {
        Some(Err(MapError::PointWithoutMarker { filename: layer.filename }))
    } else {
        Some(Err(MapError::UnsupportedShape { shape_type: shape.kind.title() }))
    }
}

/// the label that a layer puts on a shape from a column of the records, if there is any text
pub open spec fn as_label(
    layer: LayerView,
    column: Seq<char>,
    record: RecordView,
    location: SerializablePoint,
    class: Option<Seq<char>>,
) -> Outcome<Option<ContentView>> {
    match lookup(record, column) {
        Some(FieldValue::Character(Some(text))) => match label(text, layer.case, layer.abbr) {
            Some(text) => Some(
                Ok(Some(ContentView::Label { text, location, class })),
            ),
            None => None,
        },
        Some(FieldValue::Character(None)) => Some(Ok(None)),
        Some(value) => Some(
            Err(MapError::LabelNotText { column, field_type: value.type_title() }),
        ),
        None => Some(Err(MapError::LabelColumnMissing { column })),
    }
}

/// what a layer makes of a shape that belongs to it
pub open spec fn converted(
    layer: LayerView,
    marker: Option<(Seq<char>, Number)>,
    shape: ShapeRecordView,
    location: SerializablePoint,
    class: Option<Seq<char>>,
) -> Outcome<Option<ContentView>> {
    match marker {
        Some((detail, size)) => Some(
            Ok(
                Some(
                    ContentView::Marker {
                        detail: Some(detail),
                        filename: None,
                        file: None,
                        location,
                        size,
                        bearing: None,
                        class,
                    },
                ),
            ),
        ),
        None => match layer.label_column {
            None => match as_path(layer, shape.shape, class) {
                Some(Ok(path)) => Some(Ok(Some(path))),
                Some(Err(e)) => Some(Err(e)),
                None => None,
            },
            Some(column) => as_label(layer, column, shape.record, location, class),
        },
    }
}

/// a shape twice over, once for each of two classes, and its own class for both
pub open spec fn doubled(shape: ContentView) -> ContentView {
    ContentView::Group {
        contents: seq![shape.with_class(Some("bottom"@)), shape.with_class(Some("top"@))],
        class: shape.own_class(),
        bounding_box: None,
        region: None,
        transform: None,
        clip: Some(false),
        frame: Some(false),
    }
}

/// what a layer makes of a shape in its file, if it is one that is to be shown
pub open spec fn shown(
    layer: LayerView,
    region: Rect,
    marker: Option<(Seq<char>, Number)>,
    shape: ShapeRecordView,
) -> Outcome<Option<ContentView>> {
    let wanted = match layer.filters {
        Some(filters) => meets_all(filters, shape.record),
        None => Ok(true),
    };
    match wanted {
        Err(e) => Some(Err(e)),
        Ok(wanted) => if !wanted || !shape.shape.meets(region) {
            Some(Ok(None))
        } else {
            match shape_class(layer, shape.record) {
                Err(e) => Some(Err(e)),
                Ok(class) => match shape.shape.middle() {
                    Err(e) => Some(Err(e)),
                    Ok(location) => match converted(layer, marker, shape, location, class) {
                        Some(Ok(Some(content))) => Some(
                            Ok(
                                Some(
                                    if layer.double == Some(true) {
                                        doubled(content)
                                    } else {
                                        content
                                    },
                                ),
                            ),
                        ),
                        other => other,
                    },
                },
            }
        },
    }
}

/// what a layer makes of the shapes in its file
pub open spec fn all_shown(
    layer: LayerView,
    region: Rect,
    marker: Option<(Seq<char>, Number)>,
    shapes: Seq<ShapeRecordView>,
) -> Outcome<Seq<ContentView>>
    decreases shapes.len(),
{
    if shapes.len() == 0 {
        Some(Ok(Seq::empty()))
    } else {
        match all_shown(layer, region, marker, shapes.drop_last()) {
            Some(Ok(contents)) => match shown(layer, region, marker, shapes.last()) {
                Some(Ok(Some(content))) => Some(Ok(contents.push(content))),
                Some(Ok(None)) => Some(Ok(contents)),
                Some(Err(e)) => Some(Err(e)),
                None => None,
            },
            other => other,
        }
    }
}

/// a group that changes nothing about what is in it
pub open spec fn plain_group(contents: Seq<ContentView>, class: Option<Seq<char>>) -> ContentView {
    ContentView::Group {
        contents,
        class,
        bounding_box: None,
        region: None,
        transform: None,
        clip: Some(false),
        frame: Some(false),
    }
}

/// the group that a layer is resolved into
pub open spec fn loaded_layer(layer: LayerView, region: Rect) -> Outcome<ContentView> {
    match objection(layer) {
        Some(e) => Some(Err(e)),
        None => match marker_data(layer) {
            None => None,
            Some(Err(e)) => Some(Err(e)),
            Some(Ok(marker)) => match layer.shapefile {
                None => Some(
                    Err(MapError::ShapefileNotFound { filename: layer.filename }),
                ),
                Some(shapefile) => match all_shown(layer, region, marker, shapefile.shapes) {
                    Some(Ok(contents)) => if shapefile.complete {
                        Some(Ok(plain_group(contents, layer.class)))
                    } else {
                        None
                    },
                    Some(Err(e)) => Some(Err(e)),
                    None => None,
                },
            },
        },
    }
}

/// what an optional marker holds
spec fn marker_view(marker: Option<(String, Number)>) -> Option<(Seq<char>, Number)> {
    match marker {
        Some((detail, size)) => Some((detail@, size)),
        None => None,
    }
}

/// check for incompatible options
fn check_options(layer: &Layer) -> (r: Result<(), Failure>)
    ensures
        match r {
            Ok(_) => objection(layer@) is None,
            Err(e) => objection(layer@) == Some(e@),
        },
{
    if layer.label_column.is_some() && layer.marker_name.is_some() {
        return Err(MapError::LabelAndMarker);
    }
    if layer.label_column.is_none() && layer.case.is_some() {
        return Err(MapError::CaseWithoutLabel);
    }
    if layer.label_column.is_none() && layer.abbr.is_some() {
        return Err(MapError::AbbrWithoutLabel);
    }
    if layer.marker_name.is_none() && layer.size.is_some() {
        return Err(MapError::SizeWithoutMarker);
    }
    if layer.marker_name.is_some() && layer.self_clip.is_some() {
        return Err(MapError::SelfClipWithMarker);
    }
    if layer.marker_name.is_some() && layer.size.is_none() {
        return Err(MapError::NoMarkerSize { filename: layer.filename.clone() });
    }
    Ok(())
}

/// load the marker, if one was specified
fn load_marker(layer: &Layer) -> (r: Option<Result<Option<(String, Number)>, Failure>>)
    ensures
        match r {
            Some(Ok(marker)) => marker_data(layer@) == Some(
                Ok::<_, MapError<Seq<char>>>(marker_view(marker)),
            ),
            Some(Err(e)) => marker_data(layer@) == Some(
                Err::<Option<(Seq<char>, Number)>, _>(e@),
            ),
            None => marker_data(layer@) is None,
        },
{
    match (&layer.marker_name, layer.size) {
        (Some(name), Some(size)) => match try_load_SVG(name.as_str(), &layer.marker_file) {
            Some(Ok(detail)) => Some(Ok(Some((detail, size)))),
            Some(Err(e)) => Some(Err(e)),
            None => None,
        },
        _ => Some(Ok(None)),
    }
}

/// determine if we should add a class to this
fn class_shape(layer: &Layer, record: &Record) -> (r: Result<Option<String>, Failure>)
    ensures
        match r {
            Ok(class) => shape_class(layer@, record@) == Ok::<_, MapError<Seq<char>>>(
                opt_view(class),
            ),
            Err(e) => shape_class(layer@, record@) == Err::<Option<Seq<char>>, _>(e@),
        },
{
    match &layer.class_column {
        Some(column) => match record.get(column.as_str()) {
            Some(FieldValue::Character(Some(text))) => Ok(
                Some(join_words(sanitize_CSS(text.as_str()).as_str())),
            ),
            Some(FieldValue::Character(None)) => Ok(None),
            Some(FieldValue::Numeric(Some(number))) => {
                let mut class = sanitize_CSS(column.as_str());
                class.append("_");
                class.append(number.text.as_str());
                Ok(Some(class))
            },
            Some(FieldValue::Numeric(None)) => Ok(None),
            Some(_) => Err(MapError::ClassFieldType),
            None => Err(
                MapError::ClassColumnMissing {
                    column: column.clone(),
                    filename: layer.filename.clone(),
                },
            ),
        },
        None => Ok(None),
    }
}

/// whether each of the polylines has a point
fn check_parts(parts: &Vec<Vec<SerializablePoint>>) -> (b: bool)
    ensures
        b == are_inhabited(parts_view(parts@)),
{
    for i in 0..parts.len()
        invariant
            forall|j: int| 0 <= j < i ==> (#[trigger] parts_view(parts@)[j]).len() > 0,
    {
        assert(parts_view(parts@)[i as int] == parts@[i as int]@);
        if parts[i].is_empty() {
            return false;
        }
    }
    true
}

/// what a piece of content holds, if there is one
spec fn option_view(content: Option<Content>) -> Option<ContentView> {
    match content {
        Some(content) => Some(content@),
        None => None,
    }
}

/// try to make a path of a shape
fn make_path(layer: &Layer, shape: &ShapeRecord, class: Option<String>) -> (r: Option<
    Result<Option<Content>, Failure>,
>)
    ensures
        match r {
            Some(Ok(content)) => content is Some && as_path(
                layer@,
                shape@.shape,
                opt_view(class),
            ) == Some(Ok::<_, MapError<Seq<char>>>(content->0@)),
            Some(Err(e)) => as_path(layer@, shape@.shape, opt_view(class)) == Some(
                Err::<ContentView, _>(e@),
            ),
            None => as_path(layer@, shape@.shape, opt_view(class)) is None,
        },
{
    let closed = match shape.shape.kind {
        ShapeType::Polygon => true,
        ShapeType::Polyline => false,
        ShapeType::PolylineM => false,
        ShapeType::Point => {
            return Some(
                Err(MapError::PointWithoutMarker { filename: layer.filename.clone() }),
            );
        },
        other => {
            return Some(Err(MapError::UnsupportedShape { shape_type: other.name() }));
        },
    };
    if layer.decimation.is_some() && !check_parts(&shape.shape.parts) {
        return None;
    }
    let self_clip = match layer.self_clip {
        Some(self_clip) => self_clip,
        None => false,
    };
    Some(
        Ok(
            Some(
                Content::Path {
                    parts: copy_parts(&shape.shape.parts),
                    closed,
                    self_clip,
                    decimation: layer.decimation,
                    class,
                },
            ),
        ),
    )
}

/// put a label on a shape, if its record has any text for one
fn make_label(
    layer: &Layer,
    column: &String,
    record: &Record,
    location: SerializablePoint,
    class: Option<String>,
) -> (r: Option<Result<Option<Content>, Failure>>)
    ensures
        match r {
            Some(Ok(content)) => as_label(layer@, column@, record@, location, opt_view(class)) == Some(
                Ok::<_, MapError<Seq<char>>>(option_view(content)),
            ),
            Some(Err(e)) => as_label(layer@, column@, record@, location, opt_view(class)) == Some(
                Err::<Option<ContentView>, _>(e@),
            ),
            None => as_label(layer@, column@, record@, location, opt_view(class)) is None,
        },
{
    // decide what the label should say
    match record.get(column.as_str()) {
        Some(FieldValue::Character(Some(text))) => match label_text(
            text.as_str(),
            layer.case,
            &layer.abbr,
        ) {
            Some(text) => Some(
                Ok(Some(Content::Label { text, location, class })),
            ),
            None => None,
        },
        Some(FieldValue::Character(None)) => Some(Ok(None)),
        Some(value) => Some(
            Err(MapError::LabelNotText { column: column.clone(), field_type: value.field_type() }),
        ),
        None => Some(Err(MapError::LabelColumnMissing { column: column.clone() })),
    }
}

/// convert a shape to a Path or a Marker or a Label
fn convert(
    layer: &Layer,
    marker: &Option<(String, Number)>,
    shape: &ShapeRecord,
    location: SerializablePoint,
    class: Option<String>,
) -> (r: Option<Result<Option<Content>, Failure>>)
    ensures
        ({
            let goal = converted(layer@, marker_view(*marker), shape@, location, opt_view(class));
            match r {
                Some(Ok(content)) => goal == Some(
                    Ok::<_, MapError<Seq<char>>>(option_view(content)),
                ) && (content matches Some(content) ==> content@.is_shape()),
                Some(Err(e)) => goal == Some(Err::<Option<ContentView>, _>(e@)),
                None => goal is None,
            }
        }),
{
    match marker {
        // if marker was specified, make a Content::Marker
        Some((detail, size)) => Some(
            Ok(
                Some(
                    Content::Marker {
                        detail: Some(detail.clone()),
                        filename: None,
                        file: None,
                        location,
                        size: *size,
                        bearing: None,
                        class,
                    },
                ),
            ),
        ),
        None => match &layer.label_column {
            // if no marker or label was specified, try to make a Content::Path
            None => make_path(layer, shape, class),
            // if a label was specified
            Some(column) => make_label(layer, column, &shape.record, location, class),
        },
    }
}

/// put a shape in a group twice, once for each of two classes
fn double(shape: Content) -> (r: Content)
    requires
        shape@.is_shape(),
    ensures
        r@ == doubled(shape@),
{
    let class = match shape.get_class() {
        Some(class) => Some(class.clone()),
        None => None,
    };
    let ghost whole = shape@;
    let bottom = shape.copy().set_class(Some("bottom".to_owned()));
    let top = shape.set_class(Some("top".to_owned()));
    let mut contents: Vec<Content> = Vec::new();
    contents.push(bottom);
    contents.push(top);
    proof {
        lemma_contents_view(contents@);
        assert(contents_view(contents@) =~= seq![
            whole.with_class(Some("bottom"@)),
            whole.with_class(Some("top"@)),
        ]);
    }
    Content::Group {
        contents,
        class,
        bounding_box: None,
        region: None,
        transform: None,
        clip: Some(false),
        frame: Some(false),
    }
}

/// make something of a shape, if it is one that is to be shown
fn show(layer: &Layer, region: &Rect, marker: &Option<(String, Number)>, shape: &ShapeRecord) -> (r:
    Option<Result<Option<Content>, Failure>>)
    ensures
        match r {
            Some(Ok(content)) => shown(layer@, *region, marker_view(*marker), shape@) == Some(
                Ok::<_, MapError<Seq<char>>>(option_view(content)),
            ),
            Some(Err(e)) => shown(layer@, *region, marker_view(*marker), shape@) == Some(
                Err::<Option<ContentView>, _>(e@),
            ),
            None => shown(layer@, *region, marker_view(*marker), shape@) is None,
        },
{
    // first, discard anything that contradicts a filter
    let wanted = match &layer.filters {
        Some(filters) => match matches_all(filters, &shape.record) {
            Ok(wanted) => wanted,
            Err(e) => {
                return Some(Err(e));
            },
        },
        None => true,
    };
    // also discard it if its bounding box doesn't intersect the desired region
    if !wanted || !any_of_shape_is_in_box(&shape.shape, region) {
        return Some(Ok(None));
    }
    let class = match class_shape(layer, &shape.record) {
        Ok(class) => class,
        Err(e) => {
            return Some(Err(e));
        },
    };
    let location = match center_of(&shape.shape) {
        Ok(location) => location,
        Err(e) => {
            return Some(Err(e));
        },
    };
    match convert(layer, marker, shape, location, class) {
        // double it if so desired
        Some(Ok(Some(content))) => match layer.double {
            Some(true) => Some(Ok(Some(double(content)))),
            _ => Some(Ok(Some(content))),
        },
        other => other,
    }
}

/// make something of each shape that is to be shown
fn show_all(
    layer: &Layer,
    region: &Rect,
    marker: &Option<(String, Number)>,
    shapes: &Vec<ShapeRecord>,
) -> (r: Option<Result<Vec<Content>, Failure>>)
    ensures
        ({
            let all = shapes@.map_values(|shape: ShapeRecord| shape@);
            match r {
                Some(Ok(contents)) => all_shown(layer@, *region, marker_view(*marker), all)
                    == Some(Ok::<_, MapError<Seq<char>>>(contents_view(contents@))),
                Some(Err(e)) => all_shown(layer@, *region, marker_view(*marker), all) == Some(
                    Err::<Seq<ContentView>, _>(e@),
                ),
                None => all_shown(layer@, *region, marker_view(*marker), all) is None,
            }
        }),
{
    let ghost all = shapes@.map_values(|shape: ShapeRecord| shape@);
    let mut contents: Vec<Content> = Vec::new();
    assert(all.take(0) =~= Seq::empty());
    for i in 0..shapes.len()
        invariant
            all == shapes@.map_values(|shape: ShapeRecord| shape@),
            all_shown(layer@, *region, marker_view(*marker), all.take(i as int)) == Some(
                Ok::<_, MapError<Seq<char>>>(contents_view(contents@)),
            ),
    {
        proof {
            assert(all.take(i + 1).drop_last() =~= all.take(i as int));
            assert(all.take(i + 1).last() == shapes@[i as int]@);
        }
        match show(layer, region, marker, &shapes[i]) {
            Some(Ok(Some(content))) => {
                let ghost before = contents@;
                contents.push(content);
                assert(contents@.drop_last() =~= before);
            },
            Some(Ok(None)) => {},
            Some(Err(e)) => {
                proof {
                    lemma_first_failure(layer@, *region, marker_view(*marker), all, i + 1);
                }
                return Some(Err(e));
            },
            None => {
                proof {
                    lemma_first_failure(layer@, *region, marker_view(*marker), all, i + 1);
                }
                return None;
            },
        }
    }
    assert(all.take(shapes@.len() as int) =~= all);
    Some(Ok(contents))
}

/// what can't be shown of the first shapes can't be shown of all of them
proof fn lemma_first_failure(
    layer: LayerView,
    region: Rect,
    marker: Option<(Seq<char>, Number)>,
    shapes: Seq<ShapeRecordView>,
    n: int,
)
    requires
        0 <= n <= shapes.len(),
        !(all_shown(layer, region, marker, shapes.take(n)) matches Some(Ok(_))),
    ensures
        all_shown(layer, region, marker, shapes) == all_shown(
            layer,
            region,
            marker,
            shapes.take(n),
        ),
    decreases shapes.len(),
{
    if n < shapes.len() {
        assert(shapes.drop_last().take(n) =~= shapes.take(n));
        lemma_first_failure(layer, region, marker, shapes.drop_last(), n);
    } else {
        assert(shapes.take(n) =~= shapes);
    }
}

/// resolve a layer by making a bunch of Paths or Markers or Labels of its geographic data
pub fn load_layer(layer: Layer, region: &Rect) -> (r: Option<Result<Content, Failure>>)
    ensures
        match r {
            Some(Ok(content)) => loaded_layer(layer@, *region) == Some(
                Ok::<_, MapError<Seq<char>>>(content@),
            ),
            Some(Err(e)) => loaded_layer(layer@, *region) == Some(Err::<ContentView, _>(e@)),
            None => loaded_layer(layer@, *region) is None,
        },
{
    match check_options(&layer) {
        Ok(_) => {},
        Err(e) => {
            return Some(Err(e));
        },
    }
    let marker = match load_marker(&layer) {
        Some(Ok(marker)) => marker,
        Some(Err(e)) => {
            return Some(Err(e));
        },
        None => {
            return None;
        },
    };
    let shapefile = match &layer.shapefile {
        Some(shapefile) => shapefile,
        None => {
            return Some(Err(MapError::ShapefileNotFound { filename: layer.filename }));
        },
    };
    match show_all(&layer, region, &marker, &shapefile.shapes) {
        Some(Ok(contents)) => if shapefile.complete {
            Some(
                Ok(
                    Content::Group {
                        contents,
                        class: layer.class,
                        bounding_box: None,
                        region: None,
                        transform: None,
                        clip: Some(false),
                        frame: Some(false),
                    },
                ),
            )
        } else {
            None
        },
        Some(Err(e)) => Some(Err(e)),
        None => None,
    }
}

/// whether a layer's filters all let a shape pass
pub open spec fn passes_filters(layer: LayerView, shape: ShapeRecordView) -> bool {
    layer.filters matches Some(filters) ==> meets_all(filters, shape.record) == Ok::<
        bool,
        MapError<Seq<char>>,
    >(true)
}

/// shapes wholly outside the region are discarded, and so are those that contradict a filter; all
/// others are shown, except that there is no label for a shape without text for it
pub proof fn law_shapes_in_the_region_are_shown(
    layer: LayerView,
    region: Rect,
    marker: Option<(Seq<char>, Number)>,
    shape: ShapeRecordView,
)
    ensures
        shown(layer, region, marker, shape) matches Some(Ok(Some(_))) ==> shape.shape.meets(region)
            && passes_filters(layer, shape),
        shown(layer, region, marker, shape) matches Some(Ok(None)) ==> {
            ||| !shape.shape.meets(region)
            ||| !passes_filters(layer, shape)
            ||| marker is None && layer.label_column is Some && lookup(
                shape.record,
                layer.label_column->0,
            ) == Some(FieldValue::Character(None::<Seq<char>>))
        },
{
}

/// for each shape in the file there is at most one thing in the group
pub proof fn law_no_shape_is_shown_twice(
    layer: LayerView,
    region: Rect,
    marker: Option<(Seq<char>, Number)>,
    shapes: Seq<ShapeRecordView>,
)
    ensures
        all_shown(layer, region, marker, shapes) matches Some(Ok(contents)) ==> contents.len()
            <= shapes.len(),
    decreases shapes.len(),
{
    if shapes.len() > 0 {
        law_no_shape_is_shown_twice(layer, region, marker, shapes.drop_last());
    }
}

/// a layer is not doubled unless it says so, and its strokes are not confined within its shapes
/// unless it says so
pub proof fn law_layers_have_defaults(layer: LayerView, region: Rect)
    requires
        layer.double is None,
        layer.self_clip is None,
        layer.marker_name is None,
    ensures
        loaded_layer(layer, region) == loaded_layer(
            LayerView { double: Some(false), self_clip: Some(false), ..layer },
            region,
        ),
{
    let stated = LayerView { double: Some(false), self_clip: Some(false), ..layer };
    if let Some(shapefile) = layer.shapefile {
        lemma_defaults(layer, stated, region, shapefile.shapes);
    }
}

proof fn lemma_defaults(
    layer: LayerView,
    stated: LayerView,
    region: Rect,
    shapes: Seq<ShapeRecordView>,
)
    requires
        layer.double is None,
        layer.self_clip is None,
        stated == (LayerView { double: Some(false), self_clip: Some(false), ..layer }),
    ensures
        all_shown(layer, region, None, shapes) == all_shown(stated, region, None, shapes),
    decreases shapes.len(),
{
    if shapes.len() > 0 {
        lemma_defaults(layer, stated, region, shapes.drop_last());
        assert(shown(layer, region, None, shapes.last()) == shown(
            stated,
            region,
            None,
            shapes.last(),
        ));
    }
}

/// the same layer, with its shapes doubled or not
pub open spec fn with_double(layer: LayerView, double: bool) -> LayerView {
    LayerView { double: Some(double), ..layer }
}

/// the shapes, each of them twice over
pub open spec fn all_doubled(shapes: Seq<ContentView>) -> Seq<ContentView> {
    shapes.map_values(|shape: ContentView| doubled(shape))
}

proof fn lemma_all_shown_doubled(
    layer: LayerView,
    region: Rect,
    marker: Option<(Seq<char>, Number)>,
    shapes: Seq<ShapeRecordView>,
)
    ensures
        all_shown(with_double(layer, true), region, marker, shapes) == (match all_shown(
            with_double(layer, false),
            region,
            marker,
            shapes,
        ) {
            Some(Ok(contents)) => Some(Ok(all_doubled(contents))),
            other => other,
        }),
    decreases shapes.len(),
{
    let single = with_double(layer, false);
    if shapes.len() == 0 {
        assert(all_doubled(Seq::empty()) =~= Seq::empty());
    } else {
        lemma_all_shown_doubled(layer, region, marker, shapes.drop_last());
        if let Some(Ok(contents)) = all_shown(single, region, marker, shapes.drop_last()) {
            if let Some(Ok(Some(content))) = shown(single, region, marker, shapes.last()) {
                assert(all_doubled(contents.push(content)) =~= all_doubled(contents).push(
                    doubled(content),
                ));
            }
        }
    }
}

/// a layer whose shapes are doubled is like the same layer otherwise, only that each of its shapes
/// is there twice over
pub proof fn law_doubling_changes_nothing_else(layer: LayerView, region: Rect)
    ensures
        loaded_layer(with_double(layer, true), region) == (match loaded_layer(
            with_double(layer, false),
            region,
        ) {
            Some(Ok(group)) => Some(Ok(plain_group(all_doubled(group->contents), layer.class))),
            other => other,
        }),
{
    if let Some(Ok(marker)) = marker_data(layer) {
        if let Some(shapefile) = layer.shapefile {
            lemma_all_shown_doubled(layer, region, marker, shapefile.shapes);
        }
    }
}

/// a path has each ring or part of its shape, point for point and in order.  it is closed if the shape
/// is a polygon, its strokes are confined within it if the layer says so, and it is still to be
/// decimated as the layer says.
pub proof fn law_paths_have_all_the_parts(
    layer: LayerView,
    shape: ShapeView,
    class: Option<Seq<char>>,
)
    ensures
        as_path(layer, shape, class) matches Some(Ok(path)) ==> {
            &&& path is Path
            &&& path->parts.len() == shape.parts.len()
            &&& forall|i: int|
                0 <= i < shape.parts.len() ==> #[trigger] path->parts[i] == shape.parts[i]
            &&& path->closed <==> shape.kind == ShapeType::Polygon
            &&& path->self_clip <==> layer.self_clip == Some(true)
            &&& path->decimation == layer.decimation
            &&& path->Path_class == class
        },
        shape.kind == ShapeType::Polygon || shape.kind == ShapeType::Polyline || shape.kind
            == ShapeType::PolylineM ==> {
            &&& !(as_path(layer, shape, class) matches Some(Err(_)))
            &&& layer.decimation is None ==> as_path(layer, shape, class) is Some
            &&& layer.decimation is Some ==> (as_path(layer, shape, class) is Some <==> (forall|i: int|
                0 <= i < shape.parts.len() ==> (#[trigger] shape.parts[i]).len() > 0))
        },
        shape.kind == ShapeType::Point ==> as_path(layer, shape, class) == Some(
            Err::<ContentView, _>(MapError::PointWithoutMarker { filename: layer.filename }),
        ),
        shape.kind != ShapeType::Polygon && shape.kind != ShapeType::Polyline && shape.kind
            != ShapeType::PolylineM && shape.kind != ShapeType::Point ==> as_path(
            layer,
            shape,
            class,
        ) == Some(
            Err::<ContentView, _>(MapError::UnsupportedShape { shape_type: shape.kind.title() }),
        ),
{
}

/// a shape that is wanted becomes one thing: a marker at its center if the layer has a marker, or a
/// label there with what its record says if the layer has labels, or else a path
pub proof fn law_each_shape_becomes_one_thing(
    layer: LayerView,
    region: Rect,
    marker: Option<(Seq<char>, Number)>,
    shape: ShapeRecordView,
    class: Option<Seq<char>>,
)
    requires
        shape.shape.meets(region),
        layer.filters matches Some(filters) ==> meets_all(filters, shape.record) == Ok::<
            bool,
            MapError<Seq<char>>,
        >(true),
        shape_class(layer, shape.record) == Ok::<_, MapError<Seq<char>>>(class),
        layer.double != Some(true),
    ensures
        ({
            let outcome = shown(layer, region, marker, shape);
            &&& marker matches Some((detail, size)) ==> outcome == Some(
                Ok::<_, MapError<Seq<char>>>(
                    Some(
                        ContentView::Marker {
                            detail: Some(detail),
                            filename: None,
                            file: None,
                            location: shape.shape.center,
                            size,
                            bearing: None,
                            class,
                        },
                    ),
                ),
            )
            &&& marker is None ==> (layer.label_column matches Some(column) ==> match lookup(
                shape.record,
                column,
            ) {
                Some(FieldValue::Character(Some(text))) => match label(
                    text,
                    layer.case,
                    layer.abbr,
                ) {
                    Some(words) => outcome == Some(
                        Ok::<_, MapError<Seq<char>>>(
                            Some(
                                ContentView::Label {
                                    text: words,
                                    location: shape.shape.center,
                                    class,
                                },
                            ),
                        ),
                    ),
                    None => outcome is None,
                },
                Some(FieldValue::Character(None)) => outcome == Some(
                    Ok::<Option<ContentView>, MapError<Seq<char>>>(None),
                ),
                Some(value) => outcome == Some(
                    Err::<Option<ContentView>, _>(
                        MapError::LabelNotText { column, field_type: value.type_title() },
                    ),
                ),
                None => outcome == Some(
                    Err::<Option<ContentView>, _>(MapError::LabelColumnMissing { column }),
                ),
            })
            &&& marker is None && layer.label_column is None ==> match as_path(
                layer,
                shape.shape,
                class,
            ) {
                Some(Ok(path)) => outcome == Some(Ok::<_, MapError<Seq<char>>>(Some(path))),
                Some(Err(e)) => outcome == Some(Err::<Option<ContentView>, _>(e)),
                None => outcome is None,
            }
        }),
{
}

/// a shape that contradicts a filter, or is outside the region, is left out without a word; what is
/// wrong with a filter, or with the class of a shape that is wanted, is an error
pub proof fn law_unwanted_shapes_are_left_out(
    layer: LayerView,
    region: Rect,
    marker: Option<(Seq<char>, Number)>,
    shape: ShapeRecordView,
)
    ensures
        ({
            let outcome = shown(layer, region, marker, shape);
            let nothing = Some(Ok::<Option<ContentView>, MapError<Seq<char>>>(None));
            &&& layer.filters matches Some(filters) ==> match meets_all(filters, shape.record) {
                Ok(false) => outcome == nothing,
                Ok(true) => !shape.shape.meets(region) ==> outcome == nothing,
                Err(e) => outcome == Some(Err::<Option<ContentView>, _>(e)),
            }
            &&& layer.filters is None && !shape.shape.meets(region) ==> outcome == nothing
            &&& shape.shape.meets(region) && passes_filters(layer, shape) ==> (shape_class(
                layer,
                shape.record,
            ) matches Err(e) ==> outcome == Some(Err::<Option<ContentView>, _>(e)))
        }),
{
}

/// a layer shows its shapes one after another: those that come first in the file come first in the
/// group, and what is wrong with one of them is wrong with the layer
pub proof fn law_shapes_are_shown_in_order(
    layer: LayerView,
    region: Rect,
    marker: Option<(Seq<char>, Number)>,
    before: Seq<ShapeRecordView>,
    shape: ShapeRecordView,
)
    ensures
        all_shown(layer, region, marker, Seq::empty()) == Some(
            Ok::<Seq<ContentView>, MapError<Seq<char>>>(Seq::empty()),
        ),
        ({
            let outcome = all_shown(layer, region, marker, before.push(shape));
            match all_shown(layer, region, marker, before) {
                Some(Ok(contents)) => match shown(layer, region, marker, shape) {
                    Some(Ok(Some(content))) => outcome == Some(
                        Ok::<_, MapError<Seq<char>>>(contents.push(content)),
                    ),
                    Some(Ok(None)) => outcome == Some(Ok::<_, MapError<Seq<char>>>(contents)),
                    Some(Err(e)) => outcome == Some(Err::<Seq<ContentView>, _>(e)),
                    None => outcome is None,
                },
                other => outcome == other,
            }
        }),
{
    assert(before.push(shape).drop_last() =~= before);
}

/// the class of a shape is what its record says, made fit to be one class: text with underscores for
/// its spaces, or a number after the name of the column
pub proof fn law_shapes_are_classed_by_their_records(layer: LayerView, record: RecordView)
    ensures
        layer.class_column is None ==> shape_class(layer, record) == Ok::<_, MapError<Seq<char>>>(
            None::<Seq<char>>,
        ),
        layer.class_column matches Some(column) ==> match lookup(record, column) {
            Some(FieldValue::Character(Some(text))) => shape_class(layer, record) matches Ok(
                Some(class),
            ) && {
                &&& class.len() == css_class(text).len()
                &&& forall|i: int|
                    0 <= i < class.len() ==> #[trigger] class[i] == if css_class(text)[i] == ' ' {
                        '_'
                    } else {
                        css_class(text)[i]
                    }
            },
            Some(FieldValue::Numeric(Some(number))) => shape_class(layer, record) == Ok::<
                _,
                MapError<Seq<char>>,
            >(Some(css_class(column) + "_"@ + number.text)),
            Some(FieldValue::Character(None)) => shape_class(layer, record) == Ok::<
                _,
                MapError<Seq<char>>,
            >(None::<Seq<char>>),
            Some(FieldValue::Numeric(None)) => shape_class(layer, record) == Ok::<
                _,
                MapError<Seq<char>>,
            >(None::<Seq<char>>),
            Some(_) => shape_class(layer, record) == Err::<Option<Seq<char>>, _>(
                MapError::<Seq<char>>::ClassFieldType,
            ),
            None => shape_class(layer, record) == Err::<Option<Seq<char>>, _>(
                MapError::ClassColumnMissing { column, filename: layer.filename },
            ),
        },
{
}

/// a doubled shape is there once with the class `bottom` and then, on top of that, once with the class
/// `top`, and its own class is that of both together
pub proof fn law_doubled_shapes_are_there_twice(shape: ContentView)
    requires
        shape.is_shape(),
    ensures
        ({
            let both = doubled(shape);
            &&& both is Group
            &&& both->contents.len() == 2
            &&& both->contents[0].own_class() == Some("bottom"@)
            &&& both->contents[1].own_class() == Some("top"@)
            &&& both->contents[0].with_class(shape.own_class()) == shape
            &&& both->contents[1].with_class(shape.own_class()) == shape
            &&& both->Group_class == shape.own_class()
            &&& both->bounding_box is None && both->region is None && both->transform is None
            &&& both->clip == Some(false) && both->frame == Some(false)
        }),
{
}

/// the options of a layer go together just if labels and markers are not mixed, there is a case or
/// abbreviations only for labels, and a size for a marker and only for one, whose strokes are not
/// confined
pub proof fn law_options_must_go_together(layer: LayerView, region: Rect)
    ensures
        objection(layer) is None <==> {
            &&& layer.label_column is None || layer.marker_name is None
            &&& layer.case is Some ==> layer.label_column is Some
            &&& layer.abbr is Some ==> layer.label_column is Some
            &&& layer.size is Some <==> layer.marker_name is Some
            &&& layer.self_clip is Some ==> layer.marker_name is None
        },
        objection(layer) matches Some(e) ==> loaded_layer(layer, region) == Some(
            Err::<ContentView, _>(e),
        ),
        layer.label_column is Some && layer.marker_name is Some <==> objection(layer) == Some(
            MapError::<Seq<char>>::LabelAndMarker,
        ),
{
}

/// a layer becomes a group with what it shows of its file, all of which must have been read, and with
/// its class.  each of its shapes is shown by its marker, if it has one.
pub proof fn law_layers_become_what_they_show(layer: LayerView, region: Rect)
    ensures
        loaded_layer(layer, region) matches Some(Ok(group)) ==> {
            &&& group is Group
            &&& group->Group_class == layer.class
            &&& group->bounding_box is None && group->region is None && group->transform is None
            &&& group->clip == Some(false) && group->frame == Some(false)
            &&& layer.shapefile is Some && layer.shapefile->0.complete
            &&& exists|marker: Option<(Seq<char>, Number)>|
                {
                    &&& #[trigger] all_shown(layer, region, marker, layer.shapefile->0.shapes)
                        == Some(Ok::<_, MapError<Seq<char>>>(group->contents))
                    &&& marker is Some <==> layer.marker_name is Some
                    &&& marker matches Some((detail, size)) ==> layer.size == Some(size)
                        && marker_detail(layer.marker_name->0, layer.marker_file) == Ok::<
                        _,
                        MapError<Seq<char>>,
                    >(detail)
                }
        },
        objection(layer) is None && layer.marker_name is None && layer.shapefile is None
            ==> loaded_layer(layer, region) == Some(
            Err::<ContentView, _>(MapError::ShapefileNotFound { filename: layer.filename }),
        ),
{
    if let Some(Ok(group)) = loaded_layer(layer, region) {
        let marker = marker_data(layer)->0->Ok_0;
        assert(all_shown(layer, region, marker, layer.shapefile->0.shapes) is Some);
    }
}

/// of the things that can be wrong with a layer's options, the first in this order is the one that is
/// said to be wrong: labels with markers, a case or abbreviations without labels, a size without a
/// marker, confined strokes with one, and a marker without a size
pub proof fn law_the_first_objection_is_raised(layer: LayerView)
    ensures
        ({
            let (label, marker) = (layer.label_column is Some, layer.marker_name is Some);
            let fine = !(label && marker);
            let no_case = label || layer.case is None;
            let no_abbr = label || layer.abbr is None;
            let no_size = marker || layer.size is None;
            let not_confined = !marker || layer.self_clip is None;
            let e = objection(layer);
            &&& !fine ==> e == Some(MapError::<Seq<char>>::LabelAndMarker)
            &&& fine && !no_case ==> e == Some(MapError::<Seq<char>>::CaseWithoutLabel)
            &&& fine && no_case && !no_abbr ==> e == Some(MapError::<Seq<char>>::AbbrWithoutLabel)
            &&& fine && no_case && no_abbr && !no_size ==> e == Some(
                MapError::<Seq<char>>::SizeWithoutMarker,
            )
            &&& fine && no_case && no_abbr && no_size && !not_confined ==> e == Some(
                MapError::<Seq<char>>::SelfClipWithMarker,
            )
            &&& fine && no_case && no_abbr && no_size && not_confined && marker && layer.size
                is None ==> e == Some(MapError::NoMarkerSize { filename: layer.filename })
        }),
{
}

/// if the options of a layer go together, what is wrong with its marker comes first, then that its file
/// is missing, then what is wrong with a shape in it, and last that not all of it could be read
pub proof fn law_what_is_wrong_with_a_layer(
    layer: LayerView,
    region: Rect,
    shapefile: ShapefileView,
)
    requires
        objection(layer) is None,
        layer.marker_name is Some ==> indentation_is_usable(layer.marker_file),
    ensures
        layer.marker_name matches Some(name) ==> (marker_detail(name, layer.marker_file) matches Err(
            e,
        ) ==> loaded_layer(layer, region) == Some(Err::<ContentView, _>(e))),
        ({
            let marker = if layer.marker_name is Some {
                match marker_detail(layer.marker_name->0, layer.marker_file) {
                    Ok(detail) => Some((detail, layer.size->0)),
                    Err(_) => None,
                }
            } else {
                None
            };
            marker is Some || layer.marker_name is None ==> {
                &&& layer.shapefile is None ==> loaded_layer(layer, region) == Some(
                    Err::<ContentView, _>(
                        MapError::ShapefileNotFound { filename: layer.filename },
                    ),
                )
                &&& layer.shapefile == Some(shapefile) ==> match all_shown(
                    layer,
                    region,
                    marker,
                    shapefile.shapes,
                ) {
                    Some(Ok(contents)) => if shapefile.complete {
                        loaded_layer(layer, region) matches Some(Ok(group)) && group is Group
                            && group->contents == contents
                    } else {
                        loaded_layer(layer, region) is None
                    },
                    Some(Err(e)) => loaded_layer(layer, region) == Some(Err::<ContentView, _>(e)),
                    None => loaded_layer(layer, region) is None,
                }
            }
        }),
{
}

} // verus!
