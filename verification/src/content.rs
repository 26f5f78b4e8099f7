//! What goes on a map.

use crate::geometry::{parts_view, Rect, SerializablePoint, Shape, ShapeView, Transform};
use crate::number::Number;
use crate::records::{filters_view, Filter, FilterView, Record, RecordView};
use crate::text::opt_view;
use vstd::pervasive::unreached;
use vstd::prelude::*;

verus! {

/// a way to set letters
#[derive(Clone, Copy, Debug, PartialEq, Eq, Structural)]
pub enum Case {
    Upper,
    Lower,
    Sentence,
    Title,
}

/// a change to make to the text of a label.  `S` is a string, or in specifications what a string
/// holds.
#[derive(Debug)]
pub struct Replacement<S> {
    pub from: S,
    pub to: S,
}

impl View for Replacement<String> {
    type V = Replacement<Seq<char>>;

    open spec fn view(&self) -> Replacement<Seq<char>> {
        Replacement { from: self.from@, to: self.to@ }
    }
}

/// what a list of replacements holds
pub open spec fn replacements_view(abbr: Seq<Replacement<String>>) -> Seq<Replacement<Seq<char>>> {
    abbr.map_values(|r: Replacement<String>| r@)
}

/// what a list of replacements holds, if there is one
pub open spec fn abbr_view(abbr: Option<Vec<Replacement<String>>>) -> Option<
    Seq<Replacement<Seq<char>>>,
> {
    match abbr {
        Some(abbr) => Some(replacements_view(abbr@)),
        None => None,
    }
}

/// one shape from a shapefile, with what its record says of it
#[derive(Debug)]
pub struct ShapeRecord {
    pub shape: Shape,
    pub record: Record,
}

/// what a shape and its record hold
pub struct ShapeRecordView {
    pub shape: ShapeView,
    pub record: RecordView,
}

impl View for ShapeRecord {
    type V = ShapeRecordView;

    open spec fn view(&self) -> ShapeRecordView {
        ShapeRecordView { shape: self.shape@, record: self.record@ }
    }
}

/// what has been read of a shapefile
#[derive(Debug)]
pub struct Shapefile {
    /// the shapes up to the end, or up to the first that can't be read
    pub shapes: Vec<ShapeRecord>,
    /// whether that is all of them
    pub complete: bool,
}

/// what a shapefile was found to hold
pub struct ShapefileView {
    pub shapes: Seq<ShapeRecordView>,
    pub complete: bool,
}

impl View for Shapefile {
    type V = ShapefileView;

    open spec fn view(&self) -> ShapefileView {
        ShapefileView {
            shapes: self.shapes@.map_values(|shape: ShapeRecord| shape@),
            complete: self.complete,
        }
    }
}

/// some geographical data loaded from a shapefile
#[derive(Debug)]
pub struct Layer {
    /// the shapefile name containing the data, without the 'data/' or '.shp'
    pub filename: String,
    /// the SVG class to add to the shapes in this layer, if any
    pub class: Option<String>,
    /// the record field key to use to tag each shape with a unique class, if such tags are desired
    pub class_column: Option<String>,
    /// the record field key to put in the label that gets added to each shape, if such labels are
    /// desired
    pub label_column: Option<String>,
    /// how to set the case of the label before adding it to the image, if any such modification is
    /// desired
    pub case: Option<Case>,
    /// a set of replacements to make in each label text, if any
    pub abbr: Option<Vec<Replacement<String>>>,
    /// the name of the SVG (without the 'markers/' or '.svg') to put at the center of each shape
    pub marker_name: Option<String>,
    /// the desired area of the marker in square millimeters
    pub size: Option<Number>,
    /// whether to duplicate each shape in this layer (defaults to false)
    pub double: Option<bool>,
    /// whether to make each shape's strokes be confined within its shape (defaults to false)
    pub self_clip: Option<bool>,
    /// the tolerance to use for the decimation algorithm you apply to the curves (in data units),
    /// if any
    pub decimation: Option<Number>,
    /// key-[value] pairs used to show only a subset of the shapes in the file
    pub filters: Option<Vec<Filter>>,
    /// what the marker's file holds, if there is one that can be read
    pub marker_file: Option<String>,
    /// what the shapefile holds, if it can be read
    pub shapefile: Option<Shapefile>,
}

/// what a layer holds
pub struct LayerView {
    pub filename: Seq<char>,
    pub class: Option<Seq<char>>,
    pub class_column: Option<Seq<char>>,
    pub label_column: Option<Seq<char>>,
    pub case: Option<Case>,
    pub abbr: Option<Seq<Replacement<Seq<char>>>>,
    pub marker_name: Option<Seq<char>>,
    pub size: Option<Number>,
    pub double: Option<bool>,
    pub self_clip: Option<bool>,
    pub decimation: Option<Number>,
    pub filters: Option<Seq<FilterView>>,
    pub marker_file: Option<Seq<char>>,
    pub shapefile: Option<ShapefileView>,
}

impl View for Layer {
    type V = LayerView;

    open spec fn view(&self) -> LayerView {
        LayerView {
            filename: self.filename@,
            class: opt_view(self.class),
            class_column: opt_view(self.class_column),
            label_column: opt_view(self.label_column),
            case: self.case,
            abbr: abbr_view(self.abbr),
            marker_name: opt_view(self.marker_name),
            size: self.size,
            double: self.double,
            self_clip: self.self_clip,
            decimation: self.decimation,
            filters: match self.filters {
                Some(filters) => Some(filters_view(filters@)),
                None => None,
            },
            marker_file: opt_view(self.marker_file),
            shapefile: match self.shapefile {
                Some(shapefile) => Some(shapefile@),
                None => None,
            },
        }
    }
}

/// something to put on a map
#[derive(Debug)]
pub enum Content {
    /// some geographical data loaded from a shapefile
    Layer {
        /// which data, and how to show them
        layer: Layer,
    },
    /// a mesh of lines of latitude and longitude
    Graticule {
        /// the spacing between each adjacent pair of lines of latitude in degrees
        parallel_spacing: Number,
        /// the spacing between each adjacent pair of lines of longitude in degrees
        meridian_spacing: Number,
        /// the SVG class to add to the element, if any
        class: Option<String>,
    },
    /// a line segment from one location to another
    Line {
        /// one endpoint of the line
        start: SerializablePoint,
        /// the other endpoint of the line
        end: SerializablePoint,
        /// the SVG class to add to the element, if any
        class: Option<String>,
    },
    /// a plain box over some geographic area
    Rectangle {
        /// the boundaries of the rectangle
        coordinates: Rect,
        /// the SVG class to add to the element, if any
        class: Option<String>,
    },
    /// a shape made of an arbitrary number of arbitrary polylines
    Path {
        /// the coordinates of the vertices in each part
        parts: Vec<Vec<SerializablePoint>>,
        /// whether each polyline should form a complete loop
        closed: bool,
        /// whether to make this shape's strokes be confined within its shape
        self_clip: bool,
        /// the tolerance to which each polyline is still to be decimated, if any
        decimation: Option<Number>,
        /// the SVG class to add to the element, if any
        class: Option<String>,
    },
    /// a little shape that represents a point on the map
    Marker {
        /// the SVG string that will be used verbatim to define the shape of the marker
        detail: Option<String>,
        /// the name of the SVG (without the 'markers/' or '.svg') to put at the center of this
        /// thing
        filename: Option<String>,
        /// what that file holds, if it can be read
        file: Option<String>,
        /// the coordinates in geographical space to which the marker detail's origin will be
        /// shifted
        location: SerializablePoint,
        /// a multiplier that will be applied to the shape's area
        size: Number,
        /// a rotation about its center to apply, in degrees, clockwise, if any
        bearing: Option<Number>,
        /// the SVG class to add to the element, if any
        class: Option<String>,
    },
    /// a bit of text
    Label {
        /// the characters to write
        text: String,
        /// the location to put them
        location: SerializablePoint,
        /// the SVG class to add to the element
        class: Option<String>,
    },
    /// a group of other Contents
    Group {
        /// the things to put inside this group
        contents: Vec<Content>,
        /// the SVG class to add to the elements in this group, if any
        class: Option<String>,
        /// the box to which to crop this group's contents
        bounding_box: Option<Rect>,
        /// the geographical region to show. shapes wholly outside this region will be discarded.
        region: Option<Rect>,
        /// the coordinate transformation to use to map contained points from geographical
        /// coordinates to print coordinates.  defaults to an affine transform that fits the region
        /// to the bounding_box.
        transform: Option<Transform>,
        /// whether to crop the contents to the bounding box (defaults to true)
        clip: Option<bool>,
        /// whether to add a rect for a background and frame (defaults to false)
        frame: Option<bool>,
    },
    /// a <clipPath/> tag that wraps some other element
    ClipPath {
        /// the content being wrapped
        content: Box<Content>,
        /// the id to assign to the clipPath
        id: String,
    },
}

/// what a piece of content holds
pub enum ContentView {
    Layer { layer: LayerView },
    Graticule {
        parallel_spacing: Number,
        meridian_spacing: Number,
        class: Option<Seq<char>>,
    },
    Line { start: SerializablePoint, end: SerializablePoint, class: Option<Seq<char>> },
    Rectangle { coordinates: Rect, class: Option<Seq<char>> },
    Path {
        parts: Seq<Seq<SerializablePoint>>,
        closed: bool,
        self_clip: bool,
        decimation: Option<Number>,
        class: Option<Seq<char>>,
    },
    Marker {
        detail: Option<Seq<char>>,
        filename: Option<Seq<char>>,
        file: Option<Seq<char>>,
        location: SerializablePoint,
        size: Number,
        bearing: Option<Number>,
        class: Option<Seq<char>>,
    },
    Label { text: Seq<char>, location: SerializablePoint, class: Option<Seq<char>> },
    Group {
        contents: Seq<ContentView>,
        class: Option<Seq<char>>,
        bounding_box: Option<Rect>,
        region: Option<Rect>,
        transform: Option<Transform>,
        clip: Option<bool>,
        frame: Option<bool>,
    },
    ClipPath { content: Box<ContentView>, id: Seq<char> },
}

/// what a piece of content holds
pub open spec fn content_view(content: Content) -> ContentView
    decreases content,
{
    match content {
        Content::Layer { layer } => ContentView::Layer { layer: layer@ },
        Content::Graticule { parallel_spacing, meridian_spacing, class } => ContentView::Graticule {
            parallel_spacing,
            meridian_spacing,
            class: opt_view(class),
        },
        Content::Line { start, end, class } => ContentView::Line {
            start,
            end,
            class: opt_view(class),
        },
        Content::Rectangle { coordinates, class } => ContentView::Rectangle {
            coordinates,
            class: opt_view(class),
        },
        Content::Path { parts, closed, self_clip, decimation, class } => ContentView::Path {
            parts: parts_view(parts@),
            closed,
            self_clip,
            decimation,
            class: opt_view(class),
        },
        Content::Marker { detail, filename, file, location, size, bearing, class } =>
            ContentView::Marker {
            detail: opt_view(detail),
            filename: opt_view(filename),
            file: opt_view(file),
            location,
            size,
            bearing,
            class: opt_view(class),
        },
        Content::Label { text, location, class } => ContentView::Label {
            text: text@,
            location,
            class: opt_view(class),
        },
        Content::Group { contents, class, bounding_box, region, transform, clip, frame } =>
            ContentView::Group {
            contents: contents_view(contents@),
            class: opt_view(class),
            bounding_box,
            region,
            transform,
            clip,
            frame,
        },
        Content::ClipPath { content, id } => ContentView::ClipPath {
            content: Box::new(content_view(*content)),
            id: id@,
        },
    }
}

/// what each piece of content holds
pub open spec fn contents_view(contents: Seq<Content>) -> Seq<ContentView>
    decreases contents,
{
    if contents.len() == 0 {
        Seq::empty()
    } else {
        contents_view(contents.drop_last()).push(content_view(contents.last()))
    }
}

impl View for Content {
    type V = ContentView;

    open spec fn view(&self) -> ContentView {
        content_view(*self)
    }
}

/// the views of the contents, one by one
pub proof fn lemma_contents_view(contents: Seq<Content>)
    ensures
        contents_view(contents).len() == contents.len(),
        forall|i: int|
            0 <= i < contents.len() ==> #[trigger] contents_view(contents)[i] == contents[i]@,
    decreases contents.len(),
{
    if contents.len() > 0 {
        lemma_contents_view(contents.drop_last());
        assert forall|i: int| 0 <= i < contents.len() implies #[trigger] contents_view(
            contents,
        )[i] == contents[i]@ by {
            if i < contents.len() - 1 {
                assert(contents.drop_last()[i] == contents[i]);
            }
        }
    }
}

/// another list of the same polylines
pub(crate) fn copy_parts(parts: &Vec<Vec<SerializablePoint>>) -> (copy: Vec<
    Vec<SerializablePoint>,
>)
    ensures
        parts_view(copy@) == parts_view(parts@),
{
    let mut copy: Vec<Vec<SerializablePoint>> = Vec::new();
    for i in 0..parts.len()
        invariant
            parts_view(copy@) == parts_view(parts@).take(i as int),
    {
        let part = &parts[i];
        let mut new_part: Vec<SerializablePoint> = Vec::new();
        for j in 0..part.len()
            invariant
                new_part@ == part@.take(j as int),
        {
            new_part.push(part[j]);
            assert(new_part@ =~= part@.take(j + 1));
        }
        assert(new_part@ =~= part@);
        let ghost before = copy@;
        copy.push(new_part);
        assert(parts_view(copy@) =~= parts_view(before).push(new_part@));
        assert(parts_view(copy@) =~= parts_view(parts@).take(i + 1));
    }
    assert(parts_view(copy@) =~= parts_view(parts@));
    copy
}

/// another of the same strings, if there is one
pub(crate) fn copy_string(string: &Option<String>) -> (copy: Option<String>)
    ensures
        opt_view(copy) == opt_view(*string),
{
    match string {
        Some(string) => Some(string.clone()),
        None => None,
    }
}

impl ContentView {
    /// whether this is one of the things that shapes are made into
    pub open spec fn is_shape(self) -> bool {
        self is Path || self is Label || self is Marker
    }

    /// the SVG class to add to the element, if any
    pub open spec fn own_class(self) -> Option<Seq<char>> {
        match self {
            ContentView::Layer { layer } => layer.class,
            ContentView::Graticule { class, .. } => class,
            ContentView::Line { class, .. } => class,
            ContentView::Rectangle { class, .. } => class,
            ContentView::Label { class, .. } => class,
            ContentView::Path { class, .. } => class,
            ContentView::Marker { class, .. } => class,
            ContentView::Group { class, .. } => class,
            ContentView::ClipPath { .. } => None,
        }
    }

    /// the same path, label, or marker with another class
    pub open spec fn with_class(self, new_class: Option<Seq<char>>) -> ContentView {
        match self {
            ContentView::Path { parts, closed, self_clip, decimation, class: _ } =>
                ContentView::Path { parts, closed, self_clip, decimation, class: new_class },
            ContentView::Label { text, location, class: _ } => ContentView::Label {
                text,
                location,
                class: new_class,
            },
            ContentView::Marker { detail, filename, file, location, size, bearing, class: _ } =>
                ContentView::Marker {
                detail,
                filename,
                file,
                location,
                size,
                bearing,
                class: new_class,
            },
            other => other,
        }
    }
}

/// the class that is set on a path, a label, or a marker is the class it has afterward, and the
/// class that was set last is the only one that counts
pub proof fn law_the_last_class_counts(
    content: ContentView,
    first: Option<Seq<char>>,
    last: Option<Seq<char>>,
)
    requires
        content.is_shape(),
    ensures
        content.with_class(last).own_class() == last,
        content.with_class(first).with_class(last) == content.with_class(last),
        content.with_class(content.own_class()) == content,
{
}

impl Content {
    /// the SVG class to add to the element, if any
    pub fn get_class(&self) -> (class: Option<&String>)
        ensures
            match class {
                Some(class) => self@.own_class() == Some(class@),
                None => self@.own_class() is None,
            },
    {
        match self {
            Content::Layer { layer } => layer.class.as_ref(),
            Content::Graticule { class, .. } => class.as_ref(),
            Content::Line { class, .. } => class.as_ref(),
            Content::Rectangle { class, .. } => class.as_ref(),
            Content::Label { class, .. } => class.as_ref(),
            Content::Path { class, .. } => class.as_ref(),
            Content::Marker { class, .. } => class.as_ref(),
            Content::Group { class, .. } => class.as_ref(),
            Content::ClipPath { .. } => None,
        }
    }

    /// change the SVG class of a path, a label, or a marker
    pub fn set_class(self, class: Option<String>) -> (r: Content)
        requires
            self@.is_shape(),
        ensures
            r@ == self@.with_class(opt_view(class)),
    {
        match self {
            Content::Path { parts, closed, self_clip, decimation, class: _ } => Content::Path {
                parts,
                closed,
                self_clip,
                decimation,
                class,
            },
            Content::Label { text, location, class: _ } => Content::Label { text, location, class },
            Content::Marker { detail, filename, file, location, size, bearing, class: _ } =>
                Content::Marker { detail, filename, file, location, size, bearing, class },
            other => other,
        }
    }

    /// another of the same path, label, or marker
    pub fn copy(&self) -> (r: Content)
        requires
            self@.is_shape(),
        ensures
            r@ == self@,
    {
        match self {
            Content::Path { parts, closed, self_clip, decimation, class } => Content::Path {
                parts: copy_parts(parts),
                closed: *closed,
                self_clip: *self_clip,
                decimation: *decimation,
                class: copy_string(class),
            },
            Content::Label { text, location, class } => Content::Label {
                text: text.clone(),
                location: *location,
                class: copy_string(class),
            },
            Content::Marker { detail, filename, file, location, size, bearing, class } =>
                Content::Marker {
                detail: copy_string(detail),
                filename: copy_string(filename),
                file: copy_string(file),
                location: *location,
                size: *size,
                bearing: *bearing,
                class: copy_string(class),
            },
            _ => unreached(),
        }
    }
}

/// how many things there are in a piece of content, itself included
pub open spec fn content_count(content: ContentView) -> nat
    decreases content,
{
    match content {
        ContentView::Group { contents, .. } => 1 + contents_count(contents),
        ContentView::ClipPath { content, .. } => 1 + content_count(*content),
        _ => 1,
    }
}

/// how many things there are in the pieces of content
pub open spec fn contents_count(contents: Seq<ContentView>) -> nat
    decreases contents,
{
    if contents.len() == 0 {
        0
    } else {
        contents_count(contents.drop_last()) + content_count(contents.last())
    }
}

} // verus!
