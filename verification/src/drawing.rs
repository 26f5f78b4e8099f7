//! Writing the map down as an SVG document.

use crate::attributes::{insert_attribute, law_new_attributes_come_first, with_attribute};
use crate::errors::{result_view, Failure, MapError};
use crate::markup::{css_class, indent, indented, law_each_line_is_indented, sanitize_CSS};
use crate::outside::replace_all;
use crate::patterns::{
    without_clip_paths, without_hierarchy, CLIP_PATHS, CSS_PUNCTUATION, HIERARCHY,
};
use crate::text::{
    decimal, find, first_occurrence, last_occurrence, law_lines_make_up_the_text, lemma_find,
    lemma_find_is, lines, occurs, opt_view, to_decimal,
};
use vstd::prelude::*;
use vstd::string::StringExecFns;

verus! {

/// a box on the map, as its numbers are written.  `S` is a string, or in specifications what a
/// string holds.
#[derive(Debug)]
pub struct BoxText<S> {
    pub left: S,
    pub top: S,
    pub width: S,
    pub height: S,
}

impl View for BoxText<String> {
    type V = BoxText<Seq<char>>;

    open spec fn view(&self) -> BoxText<Seq<char>> {
        BoxText {
            left: self.left@,
            top: self.top@,
            width: self.width@,
            height: self.height@,
        }
    }
}

/// a point on the map, as its numbers are written.  `S` is a string, or in specifications what a
/// string holds.
#[derive(Debug)]
pub struct PointText<S> {
    pub x: S,
    pub y: S,
}

impl View for PointText<String> {
    type V = PointText<Seq<char>>;

    open spec fn view(&self) -> PointText<Seq<char>> {
        PointText { x: self.x@, y: self.y@ }
    }
}

/// content in its place on the map, with all its numbers as they are written
#[derive(Debug)]
pub enum Drawing {
    /// some geographical data that should have been loaded
    Layer { class: Option<String> },
    /// a mesh of lines that should have been loaded
    Graticule { class: Option<String> },
    /// a line segment from one location to another
    Line { start: PointText<String>, end: PointText<String>, class: Option<String> },
    /// a plain box
    Rectangle { coordinates: BoxText<String>, class: Option<String> },
    /// a shape made of an arbitrary number of arbitrary polylines
    Path {
        parts: Vec<Vec<PointText<String>>>,
        closed: bool,
        self_clip: bool,
        class: Option<String>,
    },
    /// a little shape that represents a point on the map
    Marker {
        detail: Option<String>,
        location: PointText<String>,
        /// a multiplier that will be applied to the shape's width and height
        scale: String,
        /// a rotation about its center to apply, in degrees, clockwise, if any
        bearing: Option<String>,
        class: Option<String>,
    },
    /// a bit of text
    Label { text: String, location: PointText<String>, class: Option<String> },
    /// a group of other things
    Group {
        contents: Vec<Drawing>,
        class: Option<String>,
        bounding_box: Option<BoxText<String>>,
        clip: Option<bool>,
        frame: Option<bool>,
    },
    /// a <clipPath/> tag that wraps some other element
    ClipPath { content: Box<Drawing>, id: String },
}

/// what a drawing holds
pub enum DrawingView {
    Layer { class: Option<Seq<char>> },
    Graticule { class: Option<Seq<char>> },
    Line { start: PointText<Seq<char>>, end: PointText<Seq<char>>, class: Option<Seq<char>> },
    Rectangle { coordinates: BoxText<Seq<char>>, class: Option<Seq<char>> },
    Path {
        parts: Seq<Seq<PointText<Seq<char>>>>,
        closed: bool,
        self_clip: bool,
        class: Option<Seq<char>>,
    },
    Marker {
        detail: Option<Seq<char>>,
        location: PointText<Seq<char>>,
        scale: Seq<char>,
        bearing: Option<Seq<char>>,
        class: Option<Seq<char>>,
    },
    Label { text: Seq<char>, location: PointText<Seq<char>>, class: Option<Seq<char>> },
    Group {
        contents: Seq<DrawingView>,
        class: Option<Seq<char>>,
        bounding_box: Option<BoxText<Seq<char>>>,
        clip: Option<bool>,
        frame: Option<bool>,
    },
    ClipPath { content: Box<DrawingView>, id: Seq<char> },
}

/// what the points of a polyline hold
pub open spec fn points_view(points: Seq<PointText<String>>) -> Seq<PointText<Seq<char>>> {
    points.map_values(|point: PointText<String>| point@)
}

/// what the points of a list of polylines hold
pub open spec fn paths_view(parts: Seq<Vec<PointText<String>>>) -> Seq<
    Seq<PointText<Seq<char>>>,
> {
    parts.map_values(|part: Vec<PointText<String>>| points_view(part@))
}

/// what a drawing holds
pub open spec fn drawing_view(drawing: Drawing) -> DrawingView
    decreases drawing,
{
    match drawing {
        Drawing::Layer { class } => DrawingView::Layer { class: opt_view(class) },
        Drawing::Graticule { class } => DrawingView::Graticule { class: opt_view(class) },
        Drawing::Line { start, end, class } => DrawingView::Line {
            start: start@,
            end: end@,
            class: opt_view(class),
        },
        Drawing::Rectangle { coordinates, class } => DrawingView::Rectangle {
            coordinates: coordinates@,
            class: opt_view(class),
        },
        Drawing::Path { parts, closed, self_clip, class } => DrawingView::Path {
            parts: paths_view(parts@),
            closed,
            self_clip,
            class: opt_view(class),
        },
        Drawing::Marker { detail, location, scale, bearing, class } => DrawingView::Marker {
            detail: opt_view(detail),
            location: location@,
            scale: scale@,
            bearing: opt_view(bearing),
            class: opt_view(class),
        },
        Drawing::Label { text, location, class } => DrawingView::Label {
            text: text@,
            location: location@,
            class: opt_view(class),
        },
        Drawing::Group { contents, class, bounding_box, clip, frame } => DrawingView::Group {
            contents: drawings_view(contents@),
            class: opt_view(class),
            bounding_box: match bounding_box {
                Some(boks) => Some(boks@),
                None => None,
            },
            clip,
            frame,
        },
        Drawing::ClipPath { content, id } => DrawingView::ClipPath {
            content: Box::new(drawing_view(*content)),
            id: id@,
        },
    }
}

/// what each of the drawings holds
pub open spec fn drawings_view(drawings: Seq<Drawing>) -> Seq<DrawingView>
    decreases drawings,
{
    if drawings.len() == 0 {
        Seq::empty()
    } else {
        drawings_view(drawings.drop_last()).push(drawing_view(drawings.last()))
    }
}

impl View for Drawing {
    type V = DrawingView;

    open spec fn view(&self) -> DrawingView {
        drawing_view(*self)
    }
}

impl DrawingView {
    /// the SVG class to add to the element, if any
    pub open spec fn own_class(self) -> Option<Seq<char>> {
        match self {
            DrawingView::Layer { class } => class,
            DrawingView::Graticule { class } => class,
            DrawingView::Line { class, .. } => class,
            DrawingView::Rectangle { class, .. } => class,
            DrawingView::Label { class, .. } => class,
            DrawingView::Path { class, .. } => class,
            DrawingView::Marker { class, .. } => class,
            DrawingView::Group { class, .. } => class,
            DrawingView::ClipPath { .. } => None,
        }
    }
}

/// what comes of writing something down
pub type Writing = Result<Seq<char>, MapError<Seq<char>>>;

/// a box as an element
pub open spec fn rect_element(boks: BoxText<Seq<char>>) -> Seq<char> {
    "<rect x=\""@ + boks.left + "\" y=\""@ + boks.top + "\" width=\""@ + boks.width
        + "\" height=\""@ + boks.height + "\"/>\n"@
}

/// a line segment as an element
pub open spec fn line_element(start: PointText<Seq<char>>, end: PointText<Seq<char>>) -> Seq<char> {
    "<line x1=\""@ + start.x + "\" y1=\""@ + start.y + "\" x2=\""@ + end.x + "\" y2=\""@ + end.y
        + "\"/>\n"@
}

/// a bit of text as an element
pub open spec fn text_element(text: Seq<char>, location: PointText<Seq<char>>) -> Seq<char> {
    "<text x=\""@ + location.x + "\" y=\""@ + location.y + "\">"@ + text + "</text>\n"@
}

/// what is to be done to a marker
pub open spec fn marker_transform(
    location: PointText<Seq<char>>,
    scale: Seq<char>,
    bearing: Option<Seq<char>>,
) -> Seq<char> {
    "translate("@ + location.x + ", "@ + location.y + ") scale("@ + scale + ") rotate("@ + (
    match bearing {
        Some(bearing) => bearing,
        None => "0.0"@,
    }) + ")"@
}

/// how to get to a point of a polyline from the one before it
pub open spec fn path_step(part: Seq<PointText<Seq<char>>>, i: int, closed: bool) -> Seq<char> {
    if i == 0 {
        "M"@ + part[i].x + ","@ + part[i].y + " "@
    } else if i == part.len() - 1 && closed {
        "Z"@
    } else {
        "L"@ + part[i].x + ","@ + part[i].y + " "@
    }
}

/// how to get to the first `n` points of a polyline
pub open spec fn path_steps(part: Seq<PointText<Seq<char>>>, n: int, closed: bool) -> Seq<char>
    decreases n,
{
    if n <= 0 {
        Seq::empty()
    } else {
        path_steps(part, n - 1, closed) + path_step(part, n - 1, closed)
    }
}

/// how to get along all the polylines
pub open spec fn path_data(parts: Seq<Seq<PointText<Seq<char>>>>, closed: bool) -> Seq<char>
    decreases parts.len(),
{
    if parts.len() == 0 {
        Seq::empty()
    } else {
        path_data(parts.drop_last(), closed) + path_steps(
            parts.last(),
            parts.last().len() as int,
            closed,
        )
    }
}

/// a shape as an element, or two if its strokes are to be confined within it
pub open spec fn path_element(
    parts: Seq<Seq<PointText<Seq<char>>>>,
    closed: bool,
    self_clip: bool,
    index: nat,
) -> Writing {
    let path = "<path d=\""@ + path_data(parts, closed) + "\"/>\n"@;
    if self_clip {
        match with_attribute(
            path,
            "style"@,
            "clip-path: url(#clip_path_"@ + decimal(index) + ")"@,
        ) {
            Ok(clipped) => Ok(
                "<clipPath id=\"clip_path_"@ + decimal(index) + "\">\n"@ + path + "</clipPath>\n"@
                    + clipped,
            ),
            Err(e) => Err(e),
        }
    } else {
        Ok(path)
    }
}

/// the start of a group, which may be cropped to a box
pub open spec fn group_start(rect: Seq<char>, clip: bool, index: nat) -> Seq<char> {
    if clip {
        "<clipPath id=\"clip_path_"@ + decimal(index) + "\">\n"@ + ("  "@ + rect)
            + "</clipPath>\n"@ + ("<g clip-path=\"url(#clip_path_"@ + decimal(index) + ")\">\n"@)
    } else {
        "<g>\n"@
    }
}

/// the box around a group as part of its frame
pub open spec fn frame_part(rect: Seq<char>, frame: bool, class: Seq<char>) -> Writing {
    if frame {
        with_attribute(rect, "class"@, class)
    } else {
        Ok(Seq::empty())
    }
}

/// a clip path around what is left of an element without its hierarchy
pub open spec fn clip_path_element(content: Seq<char>, id: Seq<char>) -> Seq<char> {
    "<clipPath id=\""@ + id + "\">\n"@ + without_hierarchy(without_clip_paths(content))
        + "</clipPath>\n"@
}

/// an element with a class, if there is one, and with the proper indentation
pub open spec fn finished_element(element: Seq<char>, class: Option<Seq<char>>) -> Writing {
    match class {
        Some(class) => match with_attribute(element, "class"@, class) {
            Ok(element) => Ok(indented(element, "  "@)),
            Err(e) => Err(e),
        },
        None => Ok(indented(element, "  "@)),
    }
}

/// an element with its own class and with the proper indentation
pub open spec fn classed_element(element: Writing, class: Option<Seq<char>>) -> Writing {
    match element {
        Ok(element) => finished_element(
            element,
            match class {
                Some(class) => Some(css_class(class)),
                None => None,
            },
        ),
        Err(e) => Err(e),
    }
}

/// what is written for a drawing before its class and its indentation, and how many elements there
/// are once all that is in it has been counted, starting from `count`
pub open spec fn written(drawing: DrawingView, outer: BoxText<Seq<char>>, count: nat) -> (
    Writing,
    nat,
)
    decreases drawing, 0int,
{
    match drawing {
        DrawingView::Group { contents, bounding_box, clip, frame, .. } => {
            let boks = match bounding_box {
                Some(boks) => boks,
                None => outer,
            };
            let rect = rect_element(boks);
            let start = group_start(rect, clip != Some(false), count);
            let (inside, inner_count) = all_transcribed(contents, boks, count);
            match frame_part(rect, frame == Some(true), "background"@) {
                Err(e) => (Err(e), count),
                Ok(background) => match inside {
                    Err(e) => (Err(e), inner_count),
                    Ok(inside) => match frame_part(rect, frame == Some(true), "frame"@) {
                        Err(e) => (Err(e), inner_count),
                        Ok(foreground) => (
                            Ok(start + background + inside + foreground + "</g>\n"@),
                            inner_count,
                        ),
                    },
                },
            }
        },
        DrawingView::ClipPath { content, id } => match transcribed(*content, outer, count) {
            (Ok(content), inner_count) => (Ok(clip_path_element(content, id)), inner_count),
            (Err(e), inner_count) => (Err(e), inner_count),
        },
        DrawingView::Line { start, end, .. } => (Ok(line_element(start, end)), count),
        DrawingView::Rectangle { coordinates, .. } => (Ok(rect_element(coordinates)), count),
        DrawingView::Label { text, location, .. } => (Ok(text_element(text, location)), count),
        DrawingView::Marker { detail, location, scale, bearing, .. } => (
            match detail {
                Some(detail) => with_attribute(
                    detail,
                    "transform"@,
                    marker_transform(location, scale, bearing),
                ),
                None => Err(MapError::MarkerNotLoaded),
            },
            count,
        ),
        DrawingView::Path { parts, closed, self_clip, .. } => (
            path_element(parts, closed, self_clip, count),
            count,
        ),
        DrawingView::Graticule { .. } => (Err(MapError::GraticuleNotDrawn), count),
        DrawingView::Layer { .. } => (Err(MapError::LayerNotDrawn), count),
    }
}

/// what is written for a drawing, and how many elements there are afterward
pub open spec fn transcribed(drawing: DrawingView, outer: BoxText<Seq<char>>, count: nat) -> (
    Writing,
    nat,
)
    decreases drawing, 1int,
{
    let (element, inner_count) = written(drawing, outer, count);
    match classed_element(element, drawing.own_class()) {
        Ok(text) => (Ok(text), inner_count + 1),
        Err(e) => (Err(e), inner_count),
    }
}

/// what is written for the drawings one after another, and how many elements there are afterward
pub open spec fn all_transcribed(
    drawings: Seq<DrawingView>,
    outer: BoxText<Seq<char>>,
    count: nat,
) -> (Writing, nat)
    decreases drawings, 0int,
{
    if drawings.len() == 0 {
        (Ok(Seq::empty()), count)
    } else {
        match all_transcribed(drawings.drop_last(), outer, count) {
            (Ok(before), count) => match transcribed(drawings.last(), outer, count) {
                (Ok(text), count) => (Ok(before + text), count),
                (Err(e), count) => (Err(e), count),
            },
            other => other,
        }
    }
}

/// how many elements there are in a drawing, itself included
pub open spec fn drawing_count(drawing: DrawingView) -> nat
    decreases drawing,
{
    match drawing {
        DrawingView::Group { contents, .. } => drawings_count(contents) + 1,
        DrawingView::ClipPath { content, .. } => drawing_count(*content) + 1,
        _ => 1,
    }
}

/// how many elements there are in the drawings
pub open spec fn drawings_count(drawings: Seq<DrawingView>) -> nat
    decreases drawings,
{
    if drawings.len() == 0 {
        0
    } else {
        drawings_count(drawings.drop_last()) + drawing_count(drawings.last())
    }
}

/// every element that is written is counted, each thing in it as well as the element itself, and
/// none is counted twice.  if something is wrong on the way, no more are counted than there are.
pub proof fn law_every_element_is_counted(
    drawing: DrawingView,
    outer: BoxText<Seq<char>>,
    count: nat,
)
    ensures
        transcribed(drawing, outer, count).0 is Ok ==> transcribed(drawing, outer, count).1 == count
            + drawing_count(drawing),
        count <= transcribed(drawing, outer, count).1 <= count + drawing_count(drawing),
        count <= written(drawing, outer, count).1 < count + drawing_count(drawing),
        written(drawing, outer, count).0 is Ok ==> written(drawing, outer, count).1 + 1 == count
            + drawing_count(drawing),
    decreases drawing,
{
    match drawing {
        DrawingView::Group { contents, bounding_box, .. } => {
            let boks = match bounding_box {
                Some(boks) => boks,
                None => outer,
            };
            lemma_all_are_counted(contents, boks, count);
        },
        DrawingView::ClipPath { content, .. } => {
            law_every_element_is_counted(*content, outer, count);
        },
        _ => {},
    }
}

proof fn lemma_all_are_counted(
    drawings: Seq<DrawingView>,
    outer: BoxText<Seq<char>>,
    count: nat,
)
    ensures
        all_transcribed(drawings, outer, count).0 is Ok ==> all_transcribed(
            drawings,
            outer,
            count,
        ).1 == count + drawings_count(drawings),
        count <= all_transcribed(drawings, outer, count).1 <= count + drawings_count(drawings),
    decreases drawings,
{
    if drawings.len() > 0 {
        lemma_all_are_counted(drawings.drop_last(), outer, count);
        let (_, before) = all_transcribed(drawings.drop_last(), outer, count);
        law_every_element_is_counted(drawings.last(), outer, before);
    }
}

/// write a box as an element
pub fn transcribe_box(boks: &BoxText<String>) -> (s: String)
    ensures
        s@ == rect_element(boks@),
{
    let mut s = "<rect x=\"".to_owned();
    s.append(boks.left.as_str());
    s.append("\" y=\"");
    s.append(boks.top.as_str());
    s.append("\" width=\"");
    s.append(boks.width.as_str());
    s.append("\" height=\"");
    s.append(boks.height.as_str());
    s.append("\"/>\n");
    s
}

/// write a line segment as an element
fn transcribe_line(start: &PointText<String>, end: &PointText<String>) -> (s: String)
    ensures
        s@ == line_element(start@, end@),
{
    let mut s = "<line x1=\"".to_owned();
    s.append(start.x.as_str());
    s.append("\" y1=\"");
    s.append(start.y.as_str());
    s.append("\" x2=\"");
    s.append(end.x.as_str());
    s.append("\" y2=\"");
    s.append(end.y.as_str());
    s.append("\"/>\n");
    s
}

/// write a bit of text as an element
fn transcribe_text(text: &String, location: &PointText<String>) -> (s: String)
    ensures
        s@ == text_element(text@, location@),
{
    let mut s = "<text x=\"".to_owned();
    s.append(location.x.as_str());
    s.append("\" y=\"");
    s.append(location.y.as_str());
    s.append("\">");
    s.append(text.as_str());
    s.append("</text>\n");
    s
}

/// write what is to be done to a marker
fn transcribe_transform(
    location: &PointText<String>,
    scale: &String,
    bearing: &Option<String>,
) -> (s: String)
    ensures
        s@ == marker_transform(location@, scale@, opt_view(*bearing)),
{
    let mut s = "translate(".to_owned();
    s.append(location.x.as_str());
    s.append(", ");
    s.append(location.y.as_str());
    s.append(") scale(");
    s.append(scale.as_str());
    s.append(") rotate(");
    match bearing {
        Some(bearing) => s.append(bearing.as_str()),
        None => s.append("0.0"),
    }
    s.append(")");
    s
}

/// write how to get to a point of a polyline
fn append_step(s: &mut String, command: &str, point: &PointText<String>)
    ensures
        final(s)@ == old(s)@ + (command@ + point.x@ + ","@ + point.y@ + " "@),
{
    s.append(command);
    s.append(point.x.as_str());
    s.append(",");
    s.append(point.y.as_str());
    s.append(" ");
    assert(s@ =~= old(s)@ + (command@ + point.x@ + ","@ + point.y@ + " "@));
}

/// write how to get along a polyline
fn append_part(s: &mut String, part: &Vec<PointText<String>>, closed: bool)
    ensures
        final(s)@ == old(s)@ + path_steps(points_view(part@), part@.len() as int, closed),
{
    let ghost all = points_view(part@);
    assert(s@ =~= old(s)@ + path_steps(all, 0, closed));
    for i in 0..part.len()
        invariant
            all == points_view(part@),
            s@ == old(s)@ + path_steps(all, i as int, closed),
    {
        let ghost before = s@;
        assert(all[i as int] == part@[i as int]@);
        if i == 0 {
            append_step(s, "M", &part[i]);
        } else if i == part.len() - 1 && closed {
            s.append("Z");
        } else {
            append_step(s, "L", &part[i]);
        }
        assert(s@ == before + path_step(all, i as int, closed));
        assert(s@ =~= old(s)@ + path_steps(all, i + 1, closed));
    }
}

/// write a shape as an element, or two if its strokes are to be confined within it
pub fn transcribe_path(
    parts: &Vec<Vec<PointText<String>>>,
    closed: bool,
    self_clip: bool,
    shape_index: u32,
) -> (r: Result<String, Failure>)
    ensures
        result_view(r) == path_element(paths_view(parts@), closed, self_clip, shape_index as nat),
{
    let ghost all = paths_view(parts@);
    // convert it to a d string and make it a path
    let mut path = "<path d=\"".to_owned();
    assert(all.take(0) =~= Seq::empty());
    assert(path@ =~= "<path d=\""@ + path_data(all.take(0), closed));
    for i in 0..parts.len()
        invariant
            all == paths_view(parts@),
            path@ == "<path d=\""@ + path_data(all.take(i as int), closed),
    {
        append_part(&mut path, &parts[i], closed);
        assert(all.take(i + 1).drop_last() =~= all.take(i as int));
        assert(all.take(i + 1).last() == points_view(parts@[i as int]@));
        assert(path@ =~= "<path d=\""@ + path_data(all.take(i + 1), closed));
    }
    assert(all.take(all.len() as int) =~= all);
    path.append("\"/>\n");
    if !self_clip {
        return Ok(path);
    }
    // nest it in a clipPath element
    let index = to_decimal(shape_index);
    let mut style = "clip-path: url(#clip_path_".to_owned();
    style.append(index.as_str());
    style.append(")");
    let clipped = match insert_attribute(path.as_str(), "style", style.as_str()) {
        Ok(clipped) => clipped,
        Err(e) => {
            return Err(e);
        },
    };
    let mut s = "<clipPath id=\"clip_path_".to_owned();
    s.append(index.as_str());
    s.append("\">\n");
    s.append(path.as_str());
    s.append("</clipPath>\n");
    s.append(clipped.as_str());
    Ok(s)
}

/// write the start of a group
fn start_group(rect: &str, clip: bool, group_index: u32) -> (s: String)
    ensures
        s@ == group_start(rect@, clip, group_index as nat),
{
    if !clip {
        return "<g>\n".to_owned();
    }
    let index = to_decimal(group_index);
    let mut s = "<clipPath id=\"clip_path_".to_owned();
    s.append(index.as_str());
    s.append("\">\n");
    s.append("  ");
    s.append(rect);
    s.append("</clipPath>\n");
    s.append("<g clip-path=\"url(#clip_path_");
    s.append(index.as_str());
    s.append(")\">\n");
    assert(s@ =~= group_start(rect@, clip, group_index as nat));
    s
}

/// write part of the frame of a group, if it has one
fn transcribe_frame(rect: &str, frame: bool, class: &str) -> (r: Result<String, Failure>)
    ensures
        result_view(r) == frame_part(rect@, frame, class@),
{
    if frame {
        insert_attribute(rect, "class", class)
    } else {
        let s = String::new();
        assert(s@ =~= Seq::empty());
        Ok(s)
    }
}

/// wrap what has been written in a <clipPath> tag
pub fn wrap_in_clip_path(content: &str, id: &str) -> (s: String)
    ensures
        s@ == clip_path_element(content@, id@),
{
    proof {
        reveal_strlit("[{},.:;]");
        reveal_strlit("(?s)<clipPath[^>]*>.*</clipPath>\n?");
        reveal_strlit("(?m)^.*[^/]>\n");
        assert(CSS_PUNCTUATION@[0] != CLIP_PATHS@[0]);
        assert(CSS_PUNCTUATION@[0] != HIERARCHY@[0]);
        assert(CLIP_PATHS@[2] != HIERARCHY@[2]);
    }
    // remove all <clipPath>s inside the content because we don't currently support nested clip paths
    let content = replace_all(CLIP_PATHS, content, "");
    // remove all <g> tags because <clipPath>s can't have hierarchy
    let content = replace_all(HIERARCHY, content.as_str(), "");
    // wrap it in a new <clipPath>
    let mut s = "<clipPath id=\"".to_owned();
    s.append(id);
    s.append("\">\n");
    s.append(content.as_str());
    s.append("</clipPath>\n");
    s
}

/// tack the class on an element, if there is one, and add the proper indentation
pub fn finish_element(element: &str, class: &Option<String>) -> (r: Result<String, Failure>)
    ensures
        result_view(r) == finished_element(element@, opt_view(*class)),
{
    match class {
        Some(class) => match insert_attribute(element, "class", class.as_str()) {
            Ok(element) => Ok(indent(element.as_str(), "  ")),
            Err(e) => Err(e),
        },
        None => Ok(indent(element, "  ")),
    }
}

impl Drawing {
    /// the SVG class to add to the element, if any
    pub fn get_class(&self) -> (class: Option<&String>)
        ensures
            match class {
                Some(class) => self@.own_class() == Some(class@),
                None => self@.own_class() is None,
            },
    {
        match self {
            Drawing::Layer { class } => class.as_ref(),
            Drawing::Graticule { class } => class.as_ref(),
            Drawing::Line { class, .. } => class.as_ref(),
            Drawing::Rectangle { class, .. } => class.as_ref(),
            Drawing::Label { class, .. } => class.as_ref(),
            Drawing::Path { class, .. } => class.as_ref(),
            Drawing::Marker { class, .. } => class.as_ref(),
            Drawing::Group { class, .. } => class.as_ref(),
            Drawing::ClipPath { .. } => None,
        }
    }
}

proof fn lemma_drawings_view(drawings: Seq<Drawing>)
    ensures
        drawings_view(drawings).len() == drawings.len(),
        forall|i: int|
            0 <= i < drawings.len() ==> #[trigger] drawings_view(drawings)[i] == drawings[i]@,
    decreases drawings.len(),
{
    if drawings.len() > 0 {
        lemma_drawings_view(drawings.drop_last());
        assert forall|i: int| 0 <= i < drawings.len() implies #[trigger] drawings_view(
            drawings,
        )[i] == drawings[i]@ by {
            if i < drawings.len() - 1 {
                assert(drawings.drop_last()[i] == drawings[i]);
            }
        }
    }
}

/// what is wrong with the first drawings is wrong with all of them
proof fn lemma_first_unwritable(
    drawings: Seq<DrawingView>,
    outer: BoxText<Seq<char>>,
    count: nat,
    n: int,
)
    requires
        0 <= n <= drawings.len(),
        all_transcribed(drawings.take(n), outer, count).0 is Err,
    ensures
        all_transcribed(drawings, outer, count) == all_transcribed(drawings.take(n), outer, count),
    decreases drawings.len(),
{
    if n < drawings.len() {
        assert(drawings.drop_last().take(n) =~= drawings.take(n));
        lemma_first_unwritable(drawings.drop_last(), outer, count, n);
    } else {
        assert(drawings.take(n) =~= drawings);
    }
}

/// there are no more elements in the first drawings than in all of them
proof fn lemma_first_count(drawings: Seq<DrawingView>, n: int)
    requires
        0 <= n <= drawings.len(),
    ensures
        drawings_count(drawings.take(n)) <= drawings_count(drawings),
    decreases drawings.len(),
{
    if n < drawings.len() {
        assert(drawings.drop_last().take(n) =~= drawings.take(n));
        lemma_first_count(drawings.drop_last(), n);
    } else {
        assert(drawings.take(n) =~= drawings);
    }
}

/// write a drawing down, before its class and its indentation
fn write_drawing(drawing: &Drawing, outer_bounding_box: &BoxText<String>, element_count: &mut u32) -> (r:
    Result<String, Failure>)
    requires
        *old(element_count) + drawing_count(drawing@) <= u32::MAX,
    ensures
        result_view(r) == written(drawing@, outer_bounding_box@, *old(element_count) as nat).0,
        *final(element_count) == written(
            drawing@,
            outer_bounding_box@,
            *old(element_count) as nat,
        ).1,
    decreases drawing, 0int,
{
    match drawing {
        // for a group, put down a <g> with whatever the sub-contents are
        Drawing::Group { contents, bounding_box, clip, frame, .. } => {
            // this group may override the outer bounding box
            let bounding_box = match bounding_box {
                Some(bounding_box) => bounding_box,
                None => outer_bounding_box,
            };
            let clip = match clip {
                Some(clip) => *clip,
                None => true,
            };
            let frame = match frame {
                Some(frame) => *frame,
                None => false,
            };
            // convert the bounding box to a rectangle, as this may be useful multiple times later
            let rect = transcribe_box(bounding_box);
            // write all the stuff
            let mut s = start_group(rect.as_str(), clip, *element_count);
            match transcribe_frame(rect.as_str(), frame, "background") {
                Ok(background) => s.append(background.as_str()),
                Err(e) => {
                    return Err(e);
                },
            }
            match transcribe_contents(contents, bounding_box, element_count) {
                Ok(inside) => s.append(inside.as_str()),
                Err(e) => {
                    return Err(e);
                },
            }
            match transcribe_frame(rect.as_str(), frame, "frame") {
                Ok(foreground) => s.append(foreground.as_str()),
                Err(e) => {
                    return Err(e);
                },
            }
            s.append("</g>\n");
            Ok(s)
        },
        // for a clipPath, transcribe its child wrapped in a <clipPath> tag
        Drawing::ClipPath { content, id } => match transcribe_content_as_svg(
            content,
            outer_bounding_box,
            element_count,
        ) {
            Ok(content) => Ok(wrap_in_clip_path(content.as_str(), id.as_str())),
            Err(e) => Err(e),
        },
        // for a line, you just need a single <line>
        Drawing::Line { start, end, .. } => Ok(transcribe_line(start, end)),
        // for a rectangle, use a <rect>
        Drawing::Rectangle { coordinates, .. } => Ok(transcribe_box(coordinates)),
        // for a label, use a <text> element
        Drawing::Label { text, location, .. } => Ok(transcribe_text(text, location)),
        Drawing::Marker { detail, location, scale, bearing, .. } => match detail {
            Some(detail) => insert_attribute(
                detail.as_str(),
                "transform",
                transcribe_transform(location, scale, bearing).as_str(),
            ),
            None => Err(MapError::MarkerNotLoaded),
        },
        Drawing::Path { parts, closed, self_clip, .. } => transcribe_path(
            parts,
            *closed,
            *self_clip,
            *element_count,
        ),
        Drawing::Graticule { .. } => Err(MapError::GraticuleNotDrawn),
        Drawing::Layer { .. } => Err(MapError::LayerNotDrawn),
    }
}

/// write a drawing down as SVG
pub fn transcribe_content_as_svg(
    drawing: &Drawing,
    outer_bounding_box: &BoxText<String>,
    element_count: &mut u32,
) -> (r: Result<String, Failure>)
    requires
        *old(element_count) + drawing_count(drawing@) <= u32::MAX,
    ensures
        result_view(r) == transcribed(drawing@, outer_bounding_box@, *old(element_count) as nat).0,
        *final(element_count) == transcribed(
            drawing@,
            outer_bounding_box@,
            *old(element_count) as nat,
        ).1,
    decreases drawing, 1int,
{
    proof {
        law_every_element_is_counted(drawing@, outer_bounding_box@, *element_count as nat);
    }
    let element = match write_drawing(drawing, outer_bounding_box, element_count) {
        Ok(element) => element,
        Err(e) => {
            return Err(e);
        },
    };
    let class = match drawing.get_class() {
        Some(class) => Some(sanitize_CSS(class.as_str())),
        None => None,
    };
    match finish_element(element.as_str(), &class) {
        Ok(element) => {
            *element_count += 1;
            Ok(element)
        },
        Err(e) => Err(e),
    }
}

/// write one drawing after another down as SVG
fn transcribe_contents(
    drawings: &Vec<Drawing>,
    outer_bounding_box: &BoxText<String>,
    element_count: &mut u32,
) -> (r: Result<String, Failure>)
    requires
        *old(element_count) + drawings_count(drawings_view(drawings@)) <= u32::MAX,
    ensures
        result_view(r) == all_transcribed(
            drawings_view(drawings@),
            outer_bounding_box@,
            *old(element_count) as nat,
        ).0,
        *final(element_count) == all_transcribed(
            drawings_view(drawings@),
            outer_bounding_box@,
            *old(element_count) as nat,
        ).1,
    decreases drawings, 0int,
{
    let ghost all = drawings_view(drawings@);
    let ghost outer = outer_bounding_box@;
    let ghost count = *element_count as nat;
    let mut s = String::new();
    proof {
        lemma_drawings_view(drawings@);
        assert(all.take(0) =~= Seq::empty());
        assert(s@ =~= Seq::empty());
    }
    for i in 0..drawings.len()
        invariant
            all == drawings_view(drawings@),
            all.len() == drawings@.len(),
            forall|j: int| 0 <= j < all.len() ==> #[trigger] all[j] == drawings@[j]@,
            outer == outer_bounding_box@,
            count == *old(element_count),
            count + drawings_count(all) <= u32::MAX,
            all_transcribed(all.take(i as int), outer, count) == (
                Ok::<_, MapError<Seq<char>>>(s@),
                *element_count as nat,
            ),
    {
        proof {
            assert(all.take(i + 1).drop_last() =~= all.take(i as int));
            assert(all.take(i + 1).last() == drawings@[i as int]@);
            lemma_all_are_counted(all.take(i as int), outer, count);
            lemma_first_count(all, i + 1);
        }
        match transcribe_content_as_svg(&drawings[i], outer_bounding_box, element_count) {
            Ok(text) => s.append(text.as_str()),
            Err(e) => {
                proof {
                    lemma_first_unwritable(all, outer, count, i + 1);
                }
                return Err(e);
            },
        }
    }
    assert(all.take(all.len() as int) =~= all);
    Ok(s)
}

/// count the elements in a drawing, starting from `count`, unless that takes too large a number
pub fn count_elements(drawing: &Drawing, count: u32) -> (n: Option<u32>)
    ensures
        match n {
            Some(n) => n == count + drawing_count(drawing@),
            None => count + drawing_count(drawing@) > u32::MAX,
        },
    decreases drawing,
{
    let inside = match drawing {
        Drawing::Group { contents, .. } => {
            let ghost all = drawings_view(contents@);
            let mut total: u32 = count;
            proof {
                lemma_drawings_view(contents@);
                assert(all.take(0) =~= Seq::empty());
            }
            for i in 0..contents.len()
                invariant
                    drawing@ matches DrawingView::Group { contents: goal, .. } && goal == all,
                    decreases_to!(drawing => contents@),
                    all.len() == contents@.len(),
                    forall|j: int| 0 <= j < all.len() ==> #[trigger] all[j] == contents@[j]@,
                    total == count + drawings_count(all.take(i as int)),
            {
                proof {
                    assert(all.take(i + 1).drop_last() =~= all.take(i as int));
                    lemma_first_count(all, i + 1);
                }
                match count_elements(&contents[i], total) {
                    Some(n) => {
                        total = n;
                    },
                    None => {
                        return None;
                    },
                }
            }
            assert(all.take(all.len() as int) =~= all);
            total
        },
        Drawing::ClipPath { content, .. } => match count_elements(content, count) {
            Some(n) => n,
            None => {
                return None;
            },
        },
        _ => count,
    };
    inside.checked_add(1)
}

proof fn lemma_lines_are_indented(text: Seq<char>, prefix: Seq<char>)
    requires
        !prefix.contains('\n'),
    ensures
        ({
            let all = lines(indented(text, prefix));
            forall|i: int|
                0 <= i < all.len() ==> {
                    ||| prefix.is_prefix_of(#[trigger] all[i])
                    ||| i > 0 && i == all.len() - 1 && all[i].len() == 0
                }
        }),
{
    law_each_line_is_indented(text, prefix);
    law_lines_make_up_the_text(text.drop_last());
}

/// everything that is written is indented: each line begins with two spaces, but for the nothing
/// after a newline at the end
pub proof fn law_everything_is_indented(
    drawing: DrawingView,
    outer: BoxText<Seq<char>>,
    count: nat,
)
    ensures
        transcribed(drawing, outer, count).0 matches Ok(text) ==> forall|i: int|
            0 <= i < lines(text).len() ==> {
                ||| "  "@.is_prefix_of(#[trigger] lines(text)[i])
                ||| i > 0 && i == lines(text).len() - 1 && lines(text)[i].len() == 0
            },
{
    reveal_strlit("  ");
    let (element, _) = written(drawing, outer, count);
    if let Ok(element) = element {
        lemma_lines_are_indented(element, "  "@);
        if let Some(class) = drawing.own_class() {
            if let Ok(classed) = with_attribute(element, "class"@, css_class(class)) {
                lemma_lines_are_indented(classed, "  "@);
            }
        }
    }
}

/// a group is cropped to its box unless it says otherwise, and has no frame unless it says so
pub proof fn law_groups_have_defaults(
    contents: Seq<DrawingView>,
    class: Option<Seq<char>>,
    bounding_box: Option<BoxText<Seq<char>>>,
    clip: Option<bool>,
    frame: Option<bool>,
    outer: BoxText<Seq<char>>,
    count: nat,
)
    ensures
        ({
            let group = |clip: Option<bool>, frame: Option<bool>|
                DrawingView::Group { contents, class, bounding_box, clip, frame };
            &&& transcribed(group(None, frame), outer, count) == transcribed(
                group(Some(true), frame),
                outer,
                count,
            )
            &&& transcribed(group(clip, None), outer, count) == transcribed(
                group(clip, Some(false)),
                outer,
                count,
            )
        }),
{
}

/// whether the line ends in a tag that doesn't close itself
pub open spec fn is_open_tag(line: Seq<char>) -> bool {
    line.len() >= 2 && line.last() == '>' && line[line.len() - 2] != '/'
}

/// whether some line is nothing but the end of a tag
pub open spec fn has_lone_end(text: Seq<char>) -> bool {
    exists|i: int| 0 <= i < lines(text).len() && #[trigger] lines(text)[i] == seq!['>']
}

/// there is no hierarchy in a clip path: of all the lines that are ended, none ends in a tag that
/// doesn't close itself
pub proof fn law_clip_paths_have_no_hierarchy(text: Seq<char>)
    requires
        !has_lone_end(text),
    ensures
        forall|i: int|
            0 <= i < lines(without_hierarchy(text)).len() - 1 ==> !is_open_tag(
                #[trigger] lines(without_hierarchy(text))[i],
            ),
    decreases text.len(),
{
    reveal_strlit(">\n");
    lemma_find(text, '\n', 0);
    let end = find(text, '\n', 0);
    let result = without_hierarchy(text);
    if end < text.len() {
        let line = text.take(end);
        let rest = text.skip(end + 1);
        assert(lines(text) =~= seq![line] + lines(rest));
        assert(!has_lone_end(rest)) by {
            if has_lone_end(rest) {
                let i = choose|i: int|
                    0 <= i < lines(rest).len() && #[trigger] lines(rest)[i] == seq!['>'];
                assert(lines(text)[i + 1] == lines(rest)[i]);
            }
        }
        assert(!occurs(text, ">\n"@, end + 1)) by {
            if occurs(text, ">\n"@, end + 1) {
                assert(text.subrange(end + 1, end + 3)[0] == '>');
                assert(text.subrange(end + 1, end + 3)[1] == '\n');
                assert(rest[0] == '>' && rest[1] == '\n');
                lemma_find_is(rest, '\n', 0, 1);
                assert(rest.take(1) =~= seq!['>']);
                assert(lines(rest)[0] == seq!['>']);
            }
        }
        law_clip_paths_have_no_hierarchy(rest);
        if !is_open_tag(line) {
            let kept = text.take(end + 1);
            let after = without_hierarchy(rest);
            assert(result == kept + after);
            assert forall|i: int| 0 <= i < end implies #[trigger] result[i] != '\n' by {
                assert(result[i] == text[i]);
            }
            assert(result[end] == '\n');
            lemma_find_is(result, '\n', 0, end);
            assert(result.take(end) =~= line);
            assert(result.skip(end + 1) =~= after);
            assert(lines(result) =~= seq![line] + lines(after));
            assert forall|i: int| 0 <= i < lines(result).len() - 1 implies !is_open_tag(
                #[trigger] lines(result)[i],
            ) by {
                if i > 0 {
                    assert(lines(result)[i] == lines(after)[i - 1]);
                }
            }
        } else {
            assert(line.last() == text[end - 1]);
            assert(line[line.len() - 2] == text[end - 2]);
            assert(result == without_hierarchy(rest));
        }
    } else {
        assert(result == text);
        assert(lines(text).len() == 1);
    }
}

/// a line is a `line` from one end to the other, a rectangle is a `rect` with its corner and its width
/// and height, and a label is a `text` where it is to be
pub proof fn law_plain_elements_are_written(
    start: PointText<Seq<char>>,
    end: PointText<Seq<char>>,
    boks: BoxText<Seq<char>>,
    text: Seq<char>,
    class: Option<Seq<char>>,
    outer: BoxText<Seq<char>>,
    count: nat,
)
    ensures
        written(DrawingView::Line { start, end, class }, outer, count) == (
            Ok::<_, MapError<Seq<char>>>(
                "<line x1=\""@ + start.x + "\" y1=\""@ + start.y + "\" x2=\""@ + end.x + "\" y2=\""@
                    + end.y + "\"/>\n"@,
            ),
            count,
        ),
        written(DrawingView::Rectangle { coordinates: boks, class }, outer, count) == (
            Ok::<_, MapError<Seq<char>>>(
                "<rect x=\""@ + boks.left + "\" y=\""@ + boks.top + "\" width=\""@ + boks.width
                    + "\" height=\""@ + boks.height + "\"/>\n"@,
            ),
            count,
        ),
        written(DrawingView::Label { text, location: start, class }, outer, count) == (
            Ok::<_, MapError<Seq<char>>>(
                "<text x=\""@ + start.x + "\" y=\""@ + start.y + "\">"@ + text + "</text>\n"@,
            ),
            count,
        ),
{
}

/// a marker is its detail, moved to its location, scaled to its size, and turned to its bearing, if it
/// has any.  there is no marker without a detail, and no layer or graticule that can be written.
pub proof fn law_markers_are_moved_scaled_and_turned(
    detail: Seq<char>,
    location: PointText<Seq<char>>,
    scale: Seq<char>,
    bearing: Seq<char>,
    class: Option<Seq<char>>,
    outer: BoxText<Seq<char>>,
    count: nat,
)
    ensures
        ({
            let placed = "translate("@ + location.x + ", "@ + location.y + ") scale("@ + scale
                + ") rotate("@;
            let marker = |detail: Option<Seq<char>>, bearing: Option<Seq<char>>|
                DrawingView::Marker { detail, location, scale, bearing, class };
            &&& written(marker(Some(detail), Some(bearing)), outer, count) == (
                with_attribute(detail, "transform"@, placed + bearing + ")"@),
                count,
            )
            &&& written(marker(Some(detail), None), outer, count) == (
                with_attribute(detail, "transform"@, placed + "0.0"@ + ")"@),
                count,
            )
            &&& written(marker(None, None), outer, count).0 == Err::<Seq<char>, _>(
                MapError::<Seq<char>>::MarkerNotLoaded,
            )
            &&& written(marker(None, Some(bearing)), outer, count).0 == Err::<Seq<char>, _>(
                MapError::<Seq<char>>::MarkerNotLoaded,
            )
        }),
        written(DrawingView::Layer { class }, outer, count).0 == Err::<Seq<char>, _>(
            MapError::<Seq<char>>::LayerNotDrawn,
        ),
        written(DrawingView::Graticule { class }, outer, count).0 == Err::<Seq<char>, _>(
            MapError::<Seq<char>>::GraticuleNotDrawn,
        ),
{
}

/// an element gets its class, made fit to be one, and two spaces before each line.  once that is done it
/// is counted.
pub proof fn law_elements_are_classed_and_indented(
    drawing: DrawingView,
    outer: BoxText<Seq<char>>,
    count: nat,
)
    ensures
        ({
            let (element, inside) = written(drawing, outer, count);
            let outcome = transcribed(drawing, outer, count);
            match element {
                Ok(element) => match drawing.own_class() {
                    None => outcome == (
                        Ok::<_, MapError<Seq<char>>>(indented(element, "  "@)),
                        inside + 1,
                    ),
                    Some(class) => match with_attribute(element, "class"@, css_class(class)) {
                        Ok(classed) => outcome == (
                            Ok::<_, MapError<Seq<char>>>(indented(classed, "  "@)),
                            inside + 1,
                        ),
                        Err(e) => outcome == (Err::<Seq<char>, _>(e), inside),
                    },
                },
                Err(e) => outcome == (Err::<Seq<char>, _>(e), inside),
            }
        }),
        match drawing {
            DrawingView::Layer { class } => drawing.own_class() == class,
            DrawingView::Graticule { class } => drawing.own_class() == class,
            DrawingView::Line { class, .. } => drawing.own_class() == class,
            DrawingView::Rectangle { class, .. } => drawing.own_class() == class,
            DrawingView::Label { class, .. } => drawing.own_class() == class,
            DrawingView::Path { class, .. } => drawing.own_class() == class,
            DrawingView::Marker { class, .. } => drawing.own_class() == class,
            DrawingView::Group { class, .. } => drawing.own_class() == class,
            DrawingView::ClipPath { .. } => drawing.own_class() is None,
        },
{
}

/// a polyline is drawn from its first point to each of the others in turn, and back to the first in
/// place of the last if it is closed.  polylines are drawn one after another.
pub proof fn law_polylines_go_from_point_to_point(
    parts: Seq<Seq<PointText<Seq<char>>>>,
    part: Seq<PointText<Seq<char>>>,
    point: PointText<Seq<char>>,
    closed: bool,
)
    ensures
        path_data(Seq::empty(), closed) == Seq::<char>::empty(),
        path_data(parts.push(part), closed) == path_data(parts, closed) + path_data(
            seq![part],
            closed,
        ),
        path_data(seq![Seq::empty()], closed) == Seq::<char>::empty(),
        path_data(seq![seq![point]], closed) == "M"@ + point.x + ","@ + point.y + " "@,
        part.len() > 0 ==> path_data(seq![part.push(point)], false) == path_data(
            seq![part],
            false,
        ) + "L"@ + point.x + ","@ + point.y + " "@,
        part.len() > 0 ==> path_data(seq![part.push(point)], true) == path_data(seq![part], false)
            + "Z"@,
{
    assert(parts.push(part).drop_last() =~= parts);
    assert forall|one: Seq<PointText<Seq<char>>>, closed: bool| #[trigger]
        path_data(seq![one], closed) == path_steps(one, one.len() as int, closed) by {
        assert(seq![one].drop_last() =~= Seq::empty());
        assert(path_data(seq![one].drop_last(), closed) =~= Seq::<char>::empty());
        assert(path_data(seq![one], closed) =~= path_steps(one, one.len() as int, closed));
    }
    let lone = seq![point];
    assert(path_steps(lone, 0, closed) =~= Seq::<char>::empty());
    assert(path_steps(lone, 1, closed) =~= "M"@ + point.x + ","@ + point.y + " "@);
    if part.len() > 0 {
        let n = part.len() as int;
        let longer = part.push(point);
        lemma_steps_agree(longer, part, n, false, false);
        lemma_steps_agree(longer, part, n, true, false);
        assert(path_data(seq![longer], false) =~= path_data(seq![part], false) + "L"@ + point.x
            + ","@ + point.y + " "@);
    }
}

/// the first points of a polyline are drawn in the same way, whatever comes after them
proof fn lemma_steps_agree(
    longer: Seq<PointText<Seq<char>>>,
    part: Seq<PointText<Seq<char>>>,
    n: int,
    closed: bool,
    other_closed: bool,
)
    requires
        n <= part.len() < longer.len(),
        forall|i: int| 0 <= i < part.len() ==> #[trigger] longer[i] == part[i],
        !other_closed,
    ensures
        path_steps(longer, n, closed) == path_steps(part, n, other_closed),
    decreases n,
{
    if n > 0 {
        lemma_steps_agree(longer, part, n - 1, closed, other_closed);
        assert(longer[n - 1] == part[n - 1]);
    }
}

/// a path is one `path` with all its polylines.  where its strokes are confined within it, there is a
/// clip path with the same shape before it, and it is cropped to that; the clip path goes by how many
/// elements there were before.
pub proof fn law_paths_are_written(
    parts: Seq<Seq<PointText<Seq<char>>>>,
    closed: bool,
    class: Option<Seq<char>>,
    outer: BoxText<Seq<char>>,
    count: nat,
)
    ensures
        ({
            let path = "<path d=\""@ + path_data(parts, closed) + "\"/>\n"@;
            let plain = DrawingView::Path { parts, closed, self_clip: false, class };
            let confined = DrawingView::Path { parts, closed, self_clip: true, class };
            &&& written(plain, outer, count) == (Ok::<_, MapError<Seq<char>>>(path), count)
            &&& written(confined, outer, count).0 matches Ok(text) ==> {
                let start = "<clipPath id=\"clip_path_"@ + decimal(count) + "\">\n"@ + path
                    + "</clipPath>\n"@;
                &&& start.is_prefix_of(text)
                &&& with_attribute(
                    path,
                    "style"@,
                    "clip-path: url(#clip_path_"@ + decimal(count) + ")"@,
                ) == Ok::<_, MapError<Seq<char>>>(text.skip(start.len() as int))
            }
            &&& written(confined, outer, count).0 is Ok || with_attribute(
                path,
                "style"@,
                "clip-path: url(#clip_path_"@ + decimal(count) + ")"@,
            ) is Err
        }),
{
    let path = "<path d=\""@ + path_data(parts, closed) + "\"/>\n"@;
    let confined = DrawingView::Path { parts, closed, self_clip: true, class };
    if let Ok(text) = written(confined, outer, count).0 {
        let start = "<clipPath id=\"clip_path_"@ + decimal(count) + "\">\n"@ + path
            + "</clipPath>\n"@;
        let clipped = with_attribute(
            path,
            "style"@,
            "clip-path: url(#clip_path_"@ + decimal(count) + ")"@,
        )->Ok_0;
        assert(text =~= start + clipped);
        assert(text.skip(start.len() as int) =~= clipped);
    }
}

/// a group with a box of its own is written in the same way whatever box is around it
pub proof fn law_the_innermost_box_counts(
    group: DrawingView,
    one: BoxText<Seq<char>>,
    other: BoxText<Seq<char>>,
    count: nat,
)
    requires
        group is Group,
        group->bounding_box is Some,
    ensures
        transcribed(group, one, count) == transcribed(group, other, count),
{
}

/// a group is a `g` with the things in it, one after another, all in the group's own box, or in the one
/// around it if it has none.  unless it says otherwise it is cropped to exactly that box, by a clip path
/// before it that goes by how many elements there were before.  if it says so, that box is behind
/// everything in it and then again in front.
pub proof fn law_groups_are_cropped_and_framed(
    group: DrawingView,
    outer: BoxText<Seq<char>>,
    count: nat,
)
    requires
        group is Group,
    ensures
        ({
            let boks = if group->bounding_box is Some {
                group->bounding_box->0
            } else {
                outer
            };
            let rect = "<rect x=\""@ + boks.left + "\" y=\""@ + boks.top + "\" width=\""@
                + boks.width + "\" height=\""@ + boks.height + "\"/>\n"@;
            let start = if group->clip == Some(false) {
                "<g>\n"@
            } else {
                "<clipPath id=\"clip_path_"@ + decimal(count) + "\">\n"@ + ("  "@ + rect)
                    + "</clipPath>\n"@ + ("<g clip-path=\"url(#clip_path_"@ + decimal(count)
                    + ")\">\n"@)
            };
            let (inside, inner_count) = all_transcribed(group->contents, boks, count);
            &&& group->frame != Some(true) ==> match inside {
                Ok(inside) => written(group, outer, count) == (
                    Ok::<_, MapError<Seq<char>>>(start + inside + "</g>\n"@),
                    inner_count,
                ),
                Err(e) => written(group, outer, count) == (Err::<Seq<char>, _>(e), inner_count),
            }
            &&& group->frame == Some(true) ==> match (
                with_attribute(rect, "class"@, "background"@),
                inside,
                with_attribute(rect, "class"@, "frame"@),
            ) {
                (Ok(background), Ok(inside), Ok(frame)) => written(group, outer, count) == (
                    Ok::<_, MapError<Seq<char>>>(
                        start + background + inside + frame + "</g>\n"@,
                    ),
                    inner_count,
                ),
                _ => written(group, outer, count).0 is Err,
            }
        }),
{
    let boks = if group->bounding_box is Some {
        group->bounding_box->0
    } else {
        outer
    };
    let (inside, _) = all_transcribed(group->contents, boks, count);
    if let Ok(inside) = inside {
        let start = group_start(rect_element(boks), group->clip != Some(false), count);
        assert(start + Seq::<char>::empty() + inside + Seq::<char>::empty() + "</g>\n"@ =~= start
            + inside + "</g>\n"@);
    }
}

/// the box of a frame is a `rect` with its class, if the numbers are written without letters
pub proof fn law_frames_are_boxes_with_a_class(boks: BoxText<Seq<char>>, class: Seq<char>)
    requires
        is_number_text(boks.left) && is_number_text(boks.top) && is_number_text(boks.width)
            && is_number_text(boks.height),
    ensures
        with_attribute(rect_element(boks), "class"@, class) == Ok::<_, MapError<Seq<char>>>(
            "<rect class=\""@ + class + "\" x=\""@ + boks.left + "\" y=\""@ + boks.top
                + "\" width=\""@ + boks.width + "\" height=\""@ + boks.height + "\"/>\n"@,
        ),
{
    reveal_strlit("<rect x=\"");
    reveal_strlit("\" y=\"");
    reveal_strlit("\" width=\"");
    reveal_strlit("\" height=\"");
    reveal_strlit("\"/>\n");
    reveal_strlit("<");
    reveal_strlit("rect");
    reveal_strlit(" x=\"");
    reveal_strlit("\"/");
    reveal_strlit(">");
    reveal_strlit("\n");
    reveal_strlit("class");
    reveal_strlit(" ");
    reveal_strlit("=\"");
    reveal_strlit("\"");
    reveal_strlit("<rect class=\"");
    reveal_strlit("\" x=\"");
    let list = " x=\""@ + boks.left + "\" y=\""@ + boks.top + "\" width=\""@ + boks.width
        + "\" height=\""@ + boks.height + "\"/"@;
    lemma_number_list(boks);
    assert forall|i: int| !#[trigger] occurs(list, "class"@, i) by {
        if occurs(list, "class"@, i) {
            assert(list.subrange(i, i + 5)[0] == "class"@[0]);
            assert(list[i] == 'c');
            assert(list.contains(list[i]));
        }
    }
    assert(list[0] == ' ');
    law_new_attributes_come_first("rect"@, list, "\n"@, "class"@, class);
    assert("<"@ + "rect"@ + list + ">"@ + "\n"@ =~= rect_element(boks));
    assert("<"@ + "rect"@ + " "@ + "class"@ + "=\""@ + class + "\""@ + list + ">"@ + "\n"@
        =~= "<rect class=\""@ + class + "\" x=\""@ + boks.left + "\" y=\""@ + boks.top
        + "\" width=\""@ + boks.width + "\" height=\""@ + boks.height + "\"/>\n"@);
}

/// whether this can be how a number is written, as far as attributes are concerned
pub open spec fn is_number_text(text: Seq<char>) -> bool {
    !text.contains('>') && !text.contains('c')
}

proof fn lemma_number_list(boks: BoxText<Seq<char>>)
    requires
        is_number_text(boks.left) && is_number_text(boks.top) && is_number_text(boks.width)
            && is_number_text(boks.height),
    ensures
        is_number_text(
            " x=\""@ + boks.left + "\" y=\""@ + boks.top + "\" width=\""@ + boks.width
                + "\" height=\""@ + boks.height + "\"/"@,
        ),
{
    reveal_strlit(" x=\"");
    reveal_strlit("\" y=\"");
    reveal_strlit("\" width=\"");
    reveal_strlit("\" height=\"");
    reveal_strlit("\"/");
    let first = " x=\""@ + boks.left;
    lemma_number_concat(" x=\""@, boks.left);
    let second = first + "\" y=\""@;
    lemma_number_concat(first, "\" y=\""@);
    let third = second + boks.top;
    lemma_number_concat(second, boks.top);
    let fourth = third + "\" width=\""@;
    lemma_number_concat(third, "\" width=\""@);
    let fifth = fourth + boks.width;
    lemma_number_concat(fourth, boks.width);
    let sixth = fifth + "\" height=\""@;
    lemma_number_concat(fifth, "\" height=\""@);
    lemma_number_concat(sixth, boks.height);
    lemma_number_concat(sixth + boks.height, "\"/"@);
}

proof fn lemma_number_concat(a: Seq<char>, b: Seq<char>)
    requires
        is_number_text(a),
        is_number_text(b),
    ensures
        is_number_text(a + b),
{
    assert forall|i: int| 0 <= i < (a + b).len() implies (a + b)[i] != '>' && (a + b)[i] != 'c' by {
        if i < a.len() {
            assert(a.contains(a[i]));
        } else {
            assert(b.contains(b[i - a.len()]));
        }
    }
}

/// drawings are written one after another, each counted before the next, and the first that can't be
/// written is what is wrong with all of them
pub proof fn law_drawings_are_written_in_order(
    before: Seq<DrawingView>,
    drawing: DrawingView,
    outer: BoxText<Seq<char>>,
    count: nat,
)
    ensures
        all_transcribed(Seq::empty(), outer, count) == (
            Ok::<_, MapError<Seq<char>>>(Seq::<char>::empty()),
            count,
        ),
        ({
            let outcome = all_transcribed(before.push(drawing), outer, count);
            match all_transcribed(before, outer, count) {
                (Ok(text), middle) => match transcribed(drawing, outer, middle) {
                    (Ok(more), after) => outcome == (
                        Ok::<_, MapError<Seq<char>>>(text + more),
                        after,
                    ),
                    (Err(e), after) => outcome == (Err::<Seq<char>, _>(e), after),
                },
                (Err(e), middle) => outcome == (Err::<Seq<char>, _>(e), middle),
            }
        }),
{
    assert(before.push(drawing).drop_last() =~= before);
}

/// a clip path is what is written of its content, in the same box, without the clip paths and the
/// hierarchy in it, between the tags of the clip path with its id
pub proof fn law_clip_paths_wrap_their_content(
    content: DrawingView,
    id: Seq<char>,
    outer: BoxText<Seq<char>>,
    count: nat,
)
    ensures
        ({
            let outcome = written(
                DrawingView::ClipPath { content: Box::new(content), id },
                outer,
                count,
            );
            match transcribed(content, outer, count) {
                (Ok(text), after) => outcome == (
                    Ok::<_, MapError<Seq<char>>>(
                        "<clipPath id=\""@ + id + "\">\n"@ + without_hierarchy(
                            without_clip_paths(text),
                        ) + "</clipPath>\n"@,
                    ),
                    after,
                ),
                (Err(e), after) => outcome == (Err::<Seq<char>, _>(e), after),
            }
        }),
{
}

/// what has no clip paths in it is not changed by taking them out, nor is what has no tags that open a
/// hierarchy by taking those out
pub proof fn law_plain_content_stays_in_its_clip_path(text: Seq<char>)
    ensures
        (forall|i: int| !#[trigger] occurs(text, "<clipPath"@, i)) ==> without_clip_paths(text)
            == text,
        !text.contains('>') ==> without_hierarchy(text) == text,
{
    if forall|i: int| !#[trigger] occurs(text, "<clipPath"@, i) {
        lemma_no_occurrence(text, "<clipPath"@, 0);
    }
    if !text.contains('>') {
        lemma_no_hierarchy(text);
    }
}

proof fn lemma_no_occurrence(text: Seq<char>, word: Seq<char>, from: int)
    requires
        forall|i: int| !#[trigger] occurs(text, word, i),
    ensures
        first_occurrence(text, word, from) is None,
    decreases text.len() - from + 1,
{
    if 0 <= from <= text.len() {
        assert(!occurs(text, word, from));
        lemma_no_occurrence(text, word, from + 1);
    }
}

proof fn lemma_no_hierarchy(text: Seq<char>)
    requires
        !text.contains('>'),
    ensures
        without_hierarchy(text) == text,
    decreases text.len(),
{
    reveal_strlit(">\n");
    lemma_find(text, '\n', 0);
    let end = find(text, '\n', 0);
    if end < text.len() {
        let rest = text.skip(end + 1);
        if occurs(text, ">\n"@, end + 1) {
            assert(text.subrange(end + 1, end + 3)[0] == '>');
            assert(text.contains(text[end + 1]));
        }
        if end >= 1 {
            assert(text.contains(text[end - 1]));
        }
        assert forall|i: int| 0 <= i < rest.len() implies rest[i] != '>' by {
            assert(text.contains(text[end + 1 + i]));
        }
        lemma_no_hierarchy(rest);
        assert(text.take(end + 1) + rest =~= text);
    }
}

/// a line and a lone ">" after it are taken out together, a line that opens or closes an element is
/// taken out on its own, and any other line stays
pub proof fn law_hierarchy_is_taken_out_line_by_line(line: Seq<char>, rest: Seq<char>)
    requires
        !line.contains('\n'),
    ensures
        without_hierarchy(line + "\n"@ + ">\n"@ + rest) == without_hierarchy(rest),
        !">\n"@.is_prefix_of(rest) ==> without_hierarchy(line + "\n"@ + rest) == if line.len() >= 2
            && line[line.len() - 1] == '>' && line[line.len() - 2] != '/' {
            without_hierarchy(rest)
        } else {
            line + "\n"@ + without_hierarchy(rest)
        },
        without_hierarchy(line) == line,
{
    reveal_strlit("\n");
    reveal_strlit(">\n");
    let n = line.len() as int;
    assert forall|i: int| 0 <= i < n implies #[trigger] line[i] != '\n' by {
        assert(line.contains(line[i]));
    }
    lemma_find_is(line, '\n', 0, n);
    let text = line + "\n"@ + ">\n"@ + rest;
    assert forall|i: int| 0 <= i < n implies #[trigger] text[i] != '\n' by {
        assert(text[i] == line[i]);
    }
    assert(text[n] == '\n');
    lemma_find_is(text, '\n', 0, n);
    assert(text.subrange(n + 1, n + 3) =~= ">\n"@);
    assert(text.skip(n + 3) =~= rest);
    let text = line + "\n"@ + rest;
    assert forall|i: int| 0 <= i < n implies #[trigger] text[i] != '\n' by {
        assert(text[i] == line[i]);
    }
    assert(text[n] == '\n');
    lemma_find_is(text, '\n', 0, n);
    assert(text.skip(n + 1) =~= rest);
    assert(text.take(n + 1) =~= line + "\n"@);
    if occurs(text, ">\n"@, n + 1) {
        assert(rest.subrange(0, 2) =~= text.subrange(n + 1, n + 3));
        assert(">\n"@.is_prefix_of(rest));
    }
    if n >= 2 {
        assert(text[n - 1] == line[n - 1] && text[n - 2] == line[n - 2]);
    }
}

/// the first clip path in a text is taken out with all that is in it and with the newline after it
pub proof fn law_clip_paths_are_taken_out(
    before: Seq<char>,
    head: Seq<char>,
    inside: Seq<char>,
    after: Seq<char>,
)
    requires
        !before.contains('<'),
        !head.contains('>'),
        !after.contains('<'),
    ensures
        ({
            let clip_path = "<clipPath"@ + head + ">"@ + inside + "</clipPath>"@;
            &&& without_clip_paths(before + clip_path + "\n"@ + after) == before + after
            &&& after.len() == 0 || after[0] != '\n' ==> without_clip_paths(
                before + clip_path + after,
            ) == before + after
        }),
{
    reveal_strlit("\n");
    lemma_clip_path_is_taken_out(before, head, inside, "\n"@ + after);
    lemma_clip_path_is_taken_out(before, head, inside, after);
    let clip_path = "<clipPath"@ + head + ">"@ + inside + "</clipPath>"@;
    assert(before + clip_path + "\n"@ + after =~= before + clip_path + ("\n"@ + after));
    assert(("\n"@ + after).skip(1) =~= after);
}

proof fn lemma_clip_path_is_taken_out(
    before: Seq<char>,
    head: Seq<char>,
    inside: Seq<char>,
    after: Seq<char>,
)
    requires
        !before.contains('<'),
        !head.contains('>'),
        !after.contains('<'),
    ensures
        ({
            let clip_path = "<clipPath"@ + head + ">"@ + inside + "</clipPath>"@;
            without_clip_paths(before + clip_path + after) == before + if after.len() > 0 && after[0]
                == '\n' {
                after.skip(1)
            } else {
                after
            }
        }),
{
    reveal_strlit("<clipPath");
    reveal_strlit("</clipPath>");
    reveal_strlit(">");
    let clip_path = "<clipPath"@ + head + ">"@ + inside + "</clipPath>"@;
    let text = before + clip_path + after;
    let open = before.len() as int;
    let end = open + 9 + head.len();
    let close = end + 1 + inside.len();
    assert(text.len() == close + 11 + after.len());
    assert(first_occurrence(text, "<clipPath"@, 0) == Some(open)) by {
        assert(text =~= before + "<clipPath"@ + (head + ">"@ + inside + "</clipPath>"@ + after));
        lemma_first_opening(before, "<clipPath"@, head + ">"@ + inside + "</clipPath>"@ + after);
    }
    assert(find(text, '>', open + 9) == end) by {
        assert forall|i: int| open + 9 <= i < end implies #[trigger] text[i] != '>' by {
            assert(text[i] == head[i - open - 9]);
            assert(head.contains(head[i - open - 9]));
        }
        assert(text[end] == '>');
        lemma_find_is(text, '>', open + 9, end);
    }
    assert(last_occurrence(text, "</clipPath>"@, end + 1) == Some(close)) by {
        let start = before + "<clipPath"@ + head + ">"@ + inside;
        assert(text =~= start + "</clipPath>"@ + after);
        assert forall|i: int| 1 <= i < 11 implies #[trigger] "</clipPath>"@[i] != '<' by {}
        lemma_last_closing(start, "</clipPath>"@, after, end + 1);
    }
    assert(text.take(open) =~= before);
    if after.len() > 0 {
        assert(text[close + 11] == after[0]);
    }
    assert(text.skip(close + 11) =~= after);
    if after.len() > 0 && after[0] == '\n' {
        assert(text.skip(close + 12) =~= after.skip(1));
    }
}

proof fn lemma_first_opening(before: Seq<char>, word: Seq<char>, after: Seq<char>)
    requires
        word.len() > 0 && word[0] == '<',
        !before.contains('<'),
    ensures
        first_occurrence(before + word + after, word, 0) == Some(before.len() as int),
{
    let text = before + word + after;
    let at = before.len() as int;
    assert(text.subrange(at, at + word.len()) =~= word);
    assert forall|i: int| 0 <= i < at implies !#[trigger] occurs(text, word, i) by {
        assert(text[i] == before[i]);
        assert(before.contains(before[i]));
        if occurs(text, word, i) {
            assert(text.subrange(i, i + word.len())[0] == word[0]);
        }
    }
    lemma_first_occurrence_is(text, word, 0, at);
}

proof fn lemma_last_closing(before: Seq<char>, word: Seq<char>, after: Seq<char>, from: int)
    requires
        word.len() > 0 && word[0] == '<',
        forall|i: int| 1 <= i < word.len() ==> #[trigger] word[i] != '<',
        !after.contains('<'),
        0 <= from <= before.len(),
    ensures
        last_occurrence(before + word + after, word, from) == Some(before.len() as int),
{
    let text = before + word + after;
    let at = before.len() as int;
    assert(text.subrange(at, at + word.len()) =~= word);
    assert forall|i: int| at < i implies !#[trigger] occurs(text, word, i) by {
        if occurs(text, word, i) {
            assert(text.subrange(i, i + word.len())[0] == word[0]);
            assert(text[i] == '<');
            if i < at + word.len() {
                assert(text[i] == word[i - at]);
            } else {
                assert(text[i] == after[i - at - word.len()]);
                assert(after.contains(after[i - at - word.len()]));
            }
        }
    }
    lemma_last_occurrence_is(text, word, from, at);
}

proof fn lemma_first_occurrence_is(text: Seq<char>, word: Seq<char>, from: int, at: int)
    requires
        0 <= from <= at <= text.len(),
        occurs(text, word, at),
        forall|i: int| from <= i < at ==> !#[trigger] occurs(text, word, i),
    ensures
        first_occurrence(text, word, from) == Some(at),
    decreases at - from,
{
    if from < at {
        assert(!occurs(text, word, from));
        lemma_first_occurrence_is(text, word, from + 1, at);
    }
}

proof fn lemma_last_occurrence_is(text: Seq<char>, word: Seq<char>, from: int, at: int)
    requires
        0 <= from <= text.len() + 1,
        from <= at ==> occurs(text, word, at),
        forall|i: int| at < i ==> !#[trigger] occurs(text, word, i),
    ensures
        last_occurrence(text, word, from) == if from <= at {
            Some(at)
        } else {
            None
        },
    decreases text.len() - from + 1,
{
    if from <= text.len() {
        lemma_last_occurrence_is(text, word, from + 1, at);
        if from > at {
            assert(!occurs(text, word, from));
        }
    }
}

} // verus!
