//! What can go wrong, and how it is said.

use vstd::prelude::*;
use vstd::string::StringExecFns;

verus! {

/// what kept a map from being made.  `S` is a string, or in specifications what a string holds.
#[derive(Debug)]
pub enum MapError<S> {
    /// the configuration gives the whole map no bounding box
    NoTopLevelBox,
    /// nothing around this element says which part of the world it shows
    NoRegion,
    /// a layer asks for labels and for markers
    LabelAndMarker,
    /// a layer sets the case of labels it doesn't have
    CaseWithoutLabel,
    /// a layer abbreviates labels it doesn't have
    AbbrWithoutLabel,
    /// a layer sets the size of markers it doesn't have
    SizeWithoutMarker,
    /// a layer of markers asks to be clipped to its shapes
    SelfClipWithMarker,
    /// a layer has markers of no size
    NoMarkerSize { filename: S },
    /// a marker's file can't be read
    MarkerUnreadable { filename: S },
    /// a marker's file holds no `<svg>` element with lines in it
    MarkerMalformed { filename: S },
    /// a marker's `<svg>` element doesn't start with a tag
    MarkerWithoutTag { filename: S },
    /// a layer's shapefile can't be read
    ShapefileNotFound { filename: S },
    /// a filter is about a field that the records don't have
    FilterFieldMissing { key: S },
    /// a filter lists values for a field that is neither text nor number
    FilterFieldType,
    /// a filter compares a field that is not a number
    FilterNotNumeric { key: S, field_type: S },
    /// a class is to come from a field that is neither text nor number
    ClassFieldType,
    /// a class is to come from a field that the records don't have
    ClassColumnMissing { column: S, filename: S },
    /// a shape has no geometry and so no center
    NoGeometry,
    /// a layer of points has no marker
    PointWithoutMarker { filename: S },
    /// a layer's shapes are of a type that can't be drawn
    UnsupportedShape { shape_type: S },
    /// labels are to come from a field that is not text
    LabelNotText { column: S, field_type: S },
    /// labels are to come from a field that the records don't have
    LabelColumnMissing { column: S },
    /// a marker is given both in place and by file
    DetailAndFilename,
    /// a marker is given neither in place nor by file
    NeitherDetailNorFilename,
    /// a layer is to be put on the map before it has been loaded
    LayerNotLoaded,
    /// a graticule is to be put on the map before it has been loaded
    GraticuleNotLoaded,
    /// a rectangle is under a transform that turns it
    RotatedRectangle,
    /// a rectangle is under an oblique projection
    ObliqueRectangle,
    /// a marker is to be drawn before it has been loaded
    MarkerNotLoaded,
    /// a graticule is to be drawn before it has been loaded
    GraticuleNotDrawn,
    /// a layer is to be drawn before it has been loaded
    LayerNotDrawn,
    /// an attribute is to go into text that has no tag at the start of a line
    NoTopLevelTag { element: S },
    /// a column of cities is not text
    ColumnNotText { column: S, found: S },
    /// a column of cities is not a number, or is not what stands for one
    ColumnNotNumeric { column: S, found: S },
    /// the column that marks capitals is not text
    ColumnNotFlag { column: S, found: S },
    /// a column of cities is not there
    ColumnMissing { column: S },
    /// the cities are not points
    NotPoints { found: S },
}

/// an error as functions return it
pub type Failure = MapError<String>;

impl View for MapError<String> {
    type V = MapError<Seq<char>>;

    open spec fn view(&self) -> MapError<Seq<char>> {
        match *self {
            MapError::NoTopLevelBox => MapError::NoTopLevelBox,
            MapError::NoRegion => MapError::NoRegion,
            MapError::LabelAndMarker => MapError::LabelAndMarker,
            MapError::CaseWithoutLabel => MapError::CaseWithoutLabel,
            MapError::AbbrWithoutLabel => MapError::AbbrWithoutLabel,
            MapError::SizeWithoutMarker => MapError::SizeWithoutMarker,
            MapError::SelfClipWithMarker => MapError::SelfClipWithMarker,
            MapError::NoMarkerSize { filename } => MapError::NoMarkerSize { filename: filename@ },
            MapError::MarkerUnreadable { filename } => MapError::MarkerUnreadable { filename: filename@ },
            MapError::MarkerMalformed { filename } => MapError::MarkerMalformed { filename: filename@ },
            MapError::MarkerWithoutTag { filename } => MapError::MarkerWithoutTag { filename: filename@ },
            MapError::ShapefileNotFound { filename } => MapError::ShapefileNotFound { filename: filename@ },
            MapError::FilterFieldMissing { key } => MapError::FilterFieldMissing { key: key@ },
            MapError::FilterFieldType => MapError::FilterFieldType,
            MapError::FilterNotNumeric { key, field_type } => MapError::FilterNotNumeric { key: key@, field_type: field_type@ },
            MapError::ClassFieldType => MapError::ClassFieldType,
            MapError::ClassColumnMissing { column, filename } => MapError::ClassColumnMissing { column: column@, filename: filename@ },
            MapError::NoGeometry => MapError::NoGeometry,
            MapError::PointWithoutMarker { filename } => MapError::PointWithoutMarker { filename: filename@ },
            MapError::UnsupportedShape { shape_type } => MapError::UnsupportedShape { shape_type: shape_type@ },
            MapError::LabelNotText { column, field_type } => MapError::LabelNotText { column: column@, field_type: field_type@ },
            MapError::LabelColumnMissing { column } => MapError::LabelColumnMissing { column: column@ },
            MapError::DetailAndFilename => MapError::DetailAndFilename,
            MapError::NeitherDetailNorFilename => MapError::NeitherDetailNorFilename,
            MapError::LayerNotLoaded => MapError::LayerNotLoaded,
            MapError::GraticuleNotLoaded => MapError::GraticuleNotLoaded,
            MapError::RotatedRectangle => MapError::RotatedRectangle,
            MapError::ObliqueRectangle => MapError::ObliqueRectangle,
            MapError::MarkerNotLoaded => MapError::MarkerNotLoaded,
            MapError::GraticuleNotDrawn => MapError::GraticuleNotDrawn,
            MapError::LayerNotDrawn => MapError::LayerNotDrawn,
            MapError::NoTopLevelTag { element } => MapError::NoTopLevelTag { element: element@ },
            MapError::ColumnNotText { column, found } => MapError::ColumnNotText { column: column@, found: found@ },
            MapError::ColumnNotNumeric { column, found } => MapError::ColumnNotNumeric { column: column@, found: found@ },
            MapError::ColumnNotFlag { column, found } => MapError::ColumnNotFlag { column: column@, found: found@ },
            MapError::ColumnMissing { column } => MapError::ColumnMissing { column: column@ },
            MapError::NotPoints { found } => MapError::NotPoints { found: found@ },
        }
    }
}

impl MapError<Seq<char>> {
    /// the error in words
    pub open spec fn words(self) -> Seq<char> {
        match self {
            MapError::NoTopLevelBox => "the top level must have a bounding box"@,
            MapError::NoRegion => "every layer must have a region defined somewhere in its hierarchy."@,
            MapError::LabelAndMarker => "you may not use both `label_column` and `marker_name` in a single Layer."@,
            MapError::CaseWithoutLabel => "you may not use the `case` option without the `label_column` option."@,
            MapError::AbbrWithoutLabel => "you may not use the `abbr` option without the `label_column` option."@,
            MapError::SizeWithoutMarker => "you may not use the `size` option without the `marker_name` option."@,
            MapError::SelfClipWithMarker => "the `self_clip` option is incompatible with the `marker_name` option."@,
            MapError::NoMarkerSize { filename } => "the `"@ + filename + ".shp` layer has a marker, but no marker size is given."@,
            MapError::MarkerUnreadable { filename } => "couldn't read `markers/"@ + filename + ".svg`"@,
            MapError::MarkerMalformed { filename } => "markers/"@ + filename + ".svg was malformed somehow."@,
            MapError::MarkerWithoutTag { filename } => "markers/"@ + filename + ".svg didn't seem to start with a tag."@,
            MapError::ShapefileNotFound { filename } => "could not find `data/"@ + filename + ".dbf`"@,
            MapError::FilterFieldMissing { key } => "you can't filter on the field '"@ + key + "' because it doesn't exist."@,
            MapError::FilterFieldType => "you can only filter on numerical and character fields right now."@,
            MapError::FilterNotNumeric { key, field_type } => "GreaterThan filters must act on numeric or float32 fields, but '"@ + key + "' is a "@ + field_type + "."@,
            MapError::ClassFieldType => "I don't know how to print this field type."@,
            MapError::ClassColumnMissing { column, filename } => "there doesn't seem to be a '"@ + column + "' collum in '"@ + filename + ".shp'."@,
            MapError::NoGeometry => "I cannot calculate the center of this shape because it has no geometry."@,
            MapError::PointWithoutMarker { filename } => "data/"@ + filename + ".shp is a POINT shapefile.  POINT layers must always have a `marker`."@,
            MapError::UnsupportedShape { shape_type } => "we don't support "@ + shape_type + " shapefiles right now."@,
            MapError::LabelNotText { column, field_type } => "you can only label by string columns, but '"@ + column + "' is a "@ + field_type + " column."@,
            MapError::LabelColumnMissing { column } => "you can't label by the column '"@ + column + "' because it doesn't seem to exist."@,
            MapError::DetailAndFilename => "you shouldn't specify both a detail and a filename for a Marker."@,
            MapError::NeitherDetailNorFilename => "you should specify one of a detail or a filename for a Marker."@,
            MapError::LayerNotLoaded => "Layers should have been purged by now"@,
            MapError::GraticuleNotLoaded => "Graticules should have been purged by now"@,
            MapError::RotatedRectangle => "rotation is not supported with rectangles"@,
            MapError::ObliqueRectangle => "oblique map projections are not generally cylindrical and so I don't support projecting rectangles in them."@,
            MapError::MarkerNotLoaded => "this marker should have had its detail filled in by now."@,
            MapError::GraticuleNotDrawn => "the graticules should have all been purged by now."@,
            MapError::LayerNotDrawn => "the Layers should have all been purged by now."@,
            MapError::NoTopLevelTag { element } => "I couldn't find any top-level tags in the string '"@ + element + "'"@,
            MapError::ColumnNotText { column, found } => "the "@ + column + " column must be strings, but I found "@ + found,
            MapError::ColumnNotNumeric { column, found } => "the "@ + column + " column must be numeric, but I found "@ + found,
            MapError::ColumnNotFlag { column, found } => "I expected the "@ + column + " column to be strings, but I found "@ + found,
            MapError::ColumnMissing { column } => "I couldn't find the "@ + column + " column."@,
            MapError::NotPoints { found } => "the shapefile must be a POINT shapefile, but I found "@ + found,
        }
    }
}

fn say(before: &str, subject: &str, after: &str) -> (s: String)
    ensures
        s@ == before@ + subject@ + after@,
{
    let mut s = before.to_owned();
    s.append(subject);
    s.append(after);
    s
}

fn say_of(before: &str, subject: &str, between: &str, object: &str, after: &str) -> (s: String)
    ensures
        s@ == before@ + subject@ + between@ + object@ + after@,
{
    let mut s = say(before, subject, between);
    s.append(object);
    s.append(after);
    s
}

impl MapError<String> {
    /// the error in words
    pub fn message(&self) -> (s: String)
        ensures
            s@ == self@.words(),
    {
        proof {
            reveal_strlit("");
        }
        let s = match self {
            MapError::NoTopLevelBox => "the top level must have a bounding box".to_owned(),
            MapError::NoRegion => "every layer must have a region defined somewhere in its hierarchy.".to_owned(),
            MapError::LabelAndMarker => "you may not use both `label_column` and `marker_name` in a single Layer.".to_owned(),
            MapError::CaseWithoutLabel => "you may not use the `case` option without the `label_column` option.".to_owned(),
            MapError::AbbrWithoutLabel => "you may not use the `abbr` option without the `label_column` option.".to_owned(),
            MapError::SizeWithoutMarker => "you may not use the `size` option without the `marker_name` option.".to_owned(),
            MapError::SelfClipWithMarker => "the `self_clip` option is incompatible with the `marker_name` option.".to_owned(),
            MapError::NoMarkerSize { filename } => say("the `", filename.as_str(), ".shp` layer has a marker, but no marker size is given."),
            MapError::MarkerUnreadable { filename } => say("couldn't read `markers/", filename.as_str(), ".svg`"),
            MapError::MarkerMalformed { filename } => say("markers/", filename.as_str(), ".svg was malformed somehow."),
            MapError::MarkerWithoutTag { filename } => say("markers/", filename.as_str(), ".svg didn't seem to start with a tag."),
            MapError::ShapefileNotFound { filename } => say("could not find `data/", filename.as_str(), ".dbf`"),
            MapError::FilterFieldMissing { key } => say("you can't filter on the field '", key.as_str(), "' because it doesn't exist."),
            MapError::FilterFieldType => "you can only filter on numerical and character fields right now.".to_owned(),
            MapError::FilterNotNumeric { key, field_type } => say_of("GreaterThan filters must act on numeric or float32 fields, but '", key.as_str(), "' is a ", field_type.as_str(), "."),
            MapError::ClassFieldType => "I don't know how to print this field type.".to_owned(),
            MapError::ClassColumnMissing { column, filename } => say_of("there doesn't seem to be a '", column.as_str(), "' collum in '", filename.as_str(), ".shp'."),
            MapError::NoGeometry => "I cannot calculate the center of this shape because it has no geometry.".to_owned(),
            MapError::PointWithoutMarker { filename } => say("data/", filename.as_str(), ".shp is a POINT shapefile.  POINT layers must always have a `marker`."),
            MapError::UnsupportedShape { shape_type } => say("we don't support ", shape_type.as_str(), " shapefiles right now."),
            MapError::LabelNotText { column, field_type } => say_of("you can only label by string columns, but '", column.as_str(), "' is a ", field_type.as_str(), " column."),
            MapError::LabelColumnMissing { column } => say("you can't label by the column '", column.as_str(), "' because it doesn't seem to exist."),
            MapError::DetailAndFilename => "you shouldn't specify both a detail and a filename for a Marker.".to_owned(),
            MapError::NeitherDetailNorFilename => "you should specify one of a detail or a filename for a Marker.".to_owned(),
            MapError::LayerNotLoaded => "Layers should have been purged by now".to_owned(),
            MapError::GraticuleNotLoaded => "Graticules should have been purged by now".to_owned(),
            MapError::RotatedRectangle => "rotation is not supported with rectangles".to_owned(),
            MapError::ObliqueRectangle => "oblique map projections are not generally cylindrical and so I don't support projecting rectangles in them.".to_owned(),
            MapError::MarkerNotLoaded => "this marker should have had its detail filled in by now.".to_owned(),
            MapError::GraticuleNotDrawn => "the graticules should have all been purged by now.".to_owned(),
            MapError::LayerNotDrawn => "the Layers should have all been purged by now.".to_owned(),
            MapError::NoTopLevelTag { element } => say("I couldn't find any top-level tags in the string '", element.as_str(), "'"),
            MapError::ColumnNotText { column, found } => say_of("the ", column.as_str(), " column must be strings, but I found ", found.as_str(), ""),
            MapError::ColumnNotNumeric { column, found } => say_of("the ", column.as_str(), " column must be numeric, but I found ", found.as_str(), ""),
            MapError::ColumnNotFlag { column, found } => say_of("I expected the ", column.as_str(), " column to be strings, but I found ", found.as_str(), ""),
            MapError::ColumnMissing { column } => say("I couldn't find the ", column.as_str(), " column."),
            MapError::NotPoints { found } => say("the shapefile must be a POINT shapefile, but I found ", found.as_str(), ""),
        };
        assert(s@ =~= self@.words());
        s
    }
}

/// what a result holds
pub open spec fn result_view(result: Result<String, Failure>) -> Result<
    Seq<char>,
    MapError<Seq<char>>,
> {
    match result {
        Ok(s) => Ok(s@),
        Err(e) => Err(e@),
    }
}

} // verus!
