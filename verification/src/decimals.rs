//! Writing the numbers of what is on the map as decimals.

use crate::content::{
    content_count, contents_count, contents_view, lemma_contents_view, Content, ContentView,
};
use crate::drawing::{
    all_transcribed, drawing_count, drawings_count, drawings_view, paths_view, points_view,
    transcribed, BoxText, Drawing, DrawingView, PointText,
};
use crate::geometry::{parts_view, Rect, SerializablePoint};
use crate::load::{are_loaded, is_loaded};
use crate::number::Number;
use vstd::prelude::*;

verus! {

/// how numbers are written
pub struct Notation<P, Q, R, S> {
    /// write the coordinates of a point
    pub point: P,
    /// write the corner of a box and its width and height
    pub boks: Q,
    /// write the width of a marker, given its area
    pub scale: R,
    /// write a bearing
    pub bearing: S,
}

/// what is written for numbers
pub struct Lettering {
    pub point: spec_fn(SerializablePoint) -> PointText<Seq<char>>,
    pub boks: spec_fn(Rect) -> BoxText<Seq<char>>,
    pub scale: spec_fn(Number) -> Seq<char>,
    pub bearing: spec_fn(Number) -> Seq<char>,
}

/// whether all numbers can be written
pub open spec fn is_complete<P, Q, R, S>(notation: Notation<P, Q, R, S>) -> bool where
    P: Fn(SerializablePoint) -> PointText<String>,
    Q: Fn(Rect) -> BoxText<String>,
    R: Fn(Number) -> String,
    S: Fn(Number) -> String,
 {
    &&& forall|p: SerializablePoint| #[trigger] call_requires(notation.point, (p,))
    &&& forall|b: Rect| #[trigger] call_requires(notation.boks, (b,))
    &&& forall|n: Number| #[trigger] call_requires(notation.scale, (n,))
    &&& forall|n: Number| #[trigger] call_requires(notation.bearing, (n,))
}

/// whether this is what is written in the notation
pub open spec fn letters<P, Q, R, S>(
    notation: Notation<P, Q, R, S>,
    lettering: Lettering,
) -> bool where
    P: Fn(SerializablePoint) -> PointText<String>,
    Q: Fn(Rect) -> BoxText<String>,
    R: Fn(Number) -> String,
    S: Fn(Number) -> String,
 {
    &&& forall|p: SerializablePoint, s: PointText<String>| #[trigger]
        call_ensures(notation.point, (p,), s) ==> s@ == (lettering.point)(p)
    &&& forall|b: Rect, s: BoxText<String>| #[trigger]
        call_ensures(notation.boks, (b,), s) ==> s@ == (lettering.boks)(b)
    &&& forall|n: Number, s: String| #[trigger]
        call_ensures(notation.scale, (n,), s) ==> s@ == (lettering.scale)(n)
    &&& forall|n: Number, s: String| #[trigger]
        call_ensures(notation.bearing, (n,), s) ==> s@ == (lettering.bearing)(n)
}

/// a polyline with its numbers written out
pub open spec fn lettered_part(part: Seq<SerializablePoint>, lettering: Lettering) -> Seq<
    PointText<Seq<char>>,
> {
    part.map_values(|point: SerializablePoint| (lettering.point)(point))
}

/// a piece of content with its numbers written out
pub open spec fn drawn(content: ContentView, lettering: Lettering) -> DrawingView
    decreases content,
{
    match content {
        ContentView::Layer { layer } => DrawingView::Layer { class: layer.class },
        ContentView::Graticule { class, .. } => DrawingView::Graticule { class },
        ContentView::Line { start, end, class } => DrawingView::Line {
            start: (lettering.point)(start),
            end: (lettering.point)(end),
            class,
        },
        ContentView::Rectangle { coordinates, class } => DrawingView::Rectangle {
            coordinates: (lettering.boks)(coordinates),
            class,
        },
        ContentView::Path { parts, closed, self_clip, class, .. } => DrawingView::Path {
            parts: parts.map_values(
                |part: Seq<SerializablePoint>| lettered_part(part, lettering),
            ),
            closed,
            self_clip,
            class,
        },
        ContentView::Marker { detail, location, size, bearing, class, .. } => DrawingView::Marker {
            detail,
            location: (lettering.point)(location),
            scale: (lettering.scale)(size),
            bearing: match bearing {
                Some(bearing) => Some((lettering.bearing)(bearing)),
                None => None,
            },
            class,
        },
        ContentView::Label { text, location, class } => DrawingView::Label {
            text,
            location: (lettering.point)(location),
            class,
        },
        ContentView::Group { contents, class, bounding_box, clip, frame, .. } =>
            DrawingView::Group {
            contents: all_drawn(contents, lettering),
            class,
            bounding_box: match bounding_box {
                Some(boks) => Some((lettering.boks)(boks)),
                None => None,
            },
            clip,
            frame,
        },
        ContentView::ClipPath { content, id } => DrawingView::ClipPath {
            content: Box::new(drawn(*content, lettering)),
            id,
        },
    }
}

/// the pieces of content with their numbers written out
pub open spec fn all_drawn(contents: Seq<ContentView>, lettering: Lettering) -> Seq<DrawingView>
    decreases contents,
{
    if contents.len() == 0 {
        Seq::empty()
    } else {
        all_drawn(contents.drop_last(), lettering).push(drawn(contents.last(), lettering))
    }
}

/// write the numbers of a polyline
fn draw_part<P, Q, R, S>(
    part: &Vec<SerializablePoint>,
    notation: &Notation<P, Q, R, S>,
) -> (r: Vec<PointText<String>>) where
    P: Fn(SerializablePoint) -> PointText<String>,
    Q: Fn(Rect) -> BoxText<String>,
    R: Fn(Number) -> String,
    S: Fn(Number) -> String,

    requires
        is_complete(*notation),
    ensures
        forall|lettering: Lettering| #[trigger]
            letters(*notation, lettering) ==> points_view(r@) == lettered_part(part@, lettering),
{
    let mut points: Vec<PointText<String>> = Vec::new();
    for i in 0..part.len()
        invariant
            is_complete(*notation),
            points@.len() == i,
            forall|lettering: Lettering, j: int|
                #![trigger letters(*notation, lettering), points@[j]]
                letters(*notation, lettering) && 0 <= j < i ==> points@[j]@ == (lettering.point)(
                    part@[j],
                ),
    {
        let point = &notation.point;
        points.push(point(part[i]));
    }
    assert forall|lettering: Lettering| #[trigger] letters(*notation, lettering) implies points_view(
        points@,
    ) == lettered_part(part@, lettering) by {
        assert(points_view(points@) =~= lettered_part(part@, lettering));
    }
    points
}

/// write the numbers of a list of polylines
fn draw_parts<P, Q, R, S>(
    parts: &Vec<Vec<SerializablePoint>>,
    notation: &Notation<P, Q, R, S>,
) -> (r: Vec<Vec<PointText<String>>>) where
    P: Fn(SerializablePoint) -> PointText<String>,
    Q: Fn(Rect) -> BoxText<String>,
    R: Fn(Number) -> String,
    S: Fn(Number) -> String,

    requires
        is_complete(*notation),
    ensures
        forall|lettering: Lettering| #[trigger]
            letters(*notation, lettering) ==> paths_view(r@) == parts_view(parts@).map_values(
                |part: Seq<SerializablePoint>| lettered_part(part, lettering),
            ),
{
    let mut paths: Vec<Vec<PointText<String>>> = Vec::new();
    for i in 0..parts.len()
        invariant
            is_complete(*notation),
            paths@.len() == i,
            forall|lettering: Lettering, j: int|
                #![trigger letters(*notation, lettering), paths@[j]]
                letters(*notation, lettering) && 0 <= j < i ==> points_view(paths@[j]@)
                    == lettered_part(parts@[j]@, lettering),
    {
        paths.push(draw_part(&parts[i], notation));
    }
    assert forall|lettering: Lettering| #[trigger] letters(*notation, lettering) implies paths_view(
        paths@,
    ) == parts_view(parts@).map_values(
        |part: Seq<SerializablePoint>| lettered_part(part, lettering),
    ) by {
        assert(paths_view(paths@) =~= parts_view(parts@).map_values(
            |part: Seq<SerializablePoint>| lettered_part(part, lettering),
        ));
    }
    paths
}

/// write the numbers of a piece of content
pub fn draw_content<P, Q, R, S>(
    content: Content,
    notation: &Notation<P, Q, R, S>,
) -> (r: Drawing) where
    P: Fn(SerializablePoint) -> PointText<String>,
    Q: Fn(Rect) -> BoxText<String>,
    R: Fn(Number) -> String,
    S: Fn(Number) -> String,

    requires
        is_complete(*notation),
    ensures
        forall|lettering: Lettering| #[trigger]
            letters(*notation, lettering) ==> r@ == drawn(content@, lettering),
    decreases content,
{
    let point = &notation.point;
    let boks = &notation.boks;
    match content {
        Content::Layer { layer } => Drawing::Layer { class: layer.class },
        Content::Graticule { class, .. } => Drawing::Graticule { class },
        Content::Line { start, end, class } => Drawing::Line {
            start: point(start),
            end: point(end),
            class,
        },
        Content::Rectangle { coordinates, class } => Drawing::Rectangle {
            coordinates: boks(coordinates),
            class,
        },
        Content::Path { parts, closed, self_clip, class, .. } => Drawing::Path {
            parts: draw_parts(&parts, notation),
            closed,
            self_clip,
            class,
        },
        Content::Marker { detail, location, size, bearing, class, .. } => {
            let scale = &notation.scale;
            let turn = &notation.bearing;
            Drawing::Marker {
                detail,
                location: point(location),
                scale: scale(size),
                bearing: match bearing {
                    Some(bearing) => Some(turn(bearing)),
                    None => None,
                },
                class,
            }
        },
        Content::Label { text, location, class } => Drawing::Label {
            text,
            location: point(location),
            class,
        },
        Content::Group { contents, class, bounding_box, clip, frame, .. } => {
            let bounding_box = match bounding_box {
                Some(bounding_box) => Some(boks(bounding_box)),
                None => None,
            };
            Drawing::Group {
                contents: draw_contents(contents, notation),
                class,
                bounding_box,
                clip,
                frame,
            }
        },
        Content::ClipPath { content, id } => Drawing::ClipPath {
            content: Box::new(draw_content(*content, notation)),
            id,
        },
    }
}

/// write the numbers of one piece of content after another
fn draw_contents<P, Q, R, S>(
    contents: Vec<Content>,
    notation: &Notation<P, Q, R, S>,
) -> (r: Vec<Drawing>) where
    P: Fn(SerializablePoint) -> PointText<String>,
    Q: Fn(Rect) -> BoxText<String>,
    R: Fn(Number) -> String,
    S: Fn(Number) -> String,

    requires
        is_complete(*notation),
    ensures
        forall|lettering: Lettering| #[trigger]
            letters(*notation, lettering) ==> drawings_view(r@) == all_drawn(
                contents_view(contents@),
                lettering,
            ),
    decreases contents,
{
    let ghost all = contents@;
    let ghost goal = contents_view(all);
    let mut drawings: Vec<Drawing> = Vec::new();
    proof {
        lemma_contents_view(all);
        assert(goal.take(0) =~= Seq::empty());
    }
    for content in it: contents
        invariant
            it.seq() == all,
            all == contents@,
            decreases_to!(contents => all),
            goal == contents_view(all),
            goal.len() == all.len(),
            forall|i: int| 0 <= i < all.len() ==> #[trigger] goal[i] == all[i]@,
            is_complete(*notation),
            forall|lettering: Lettering| #[trigger]
                letters(*notation, lettering) ==> drawings_view(drawings@) == all_drawn(
                    goal.take(it.index()),
                    lettering,
                ),
    {
        let ghost i = it.index();
        proof {
            assert(goal.take(i + 1).drop_last() =~= goal.take(i));
            assert(goal.take(i + 1).last() == content@);
        }
        let ghost before = drawings@;
        drawings.push(draw_content(content, notation));
        assert(drawings@.drop_last() =~= before);
    }
    assert(goal.take(all.len() as int) =~= goal);
    drawings
}

/// everything that is on the map is in the drawing, with its class
pub proof fn law_everything_is_drawn(content: ContentView, lettering: Lettering)
    ensures
        drawing_count(drawn(content, lettering)) == content_count(content),
        drawn(content, lettering).own_class() == content.own_class(),
    decreases content,
{
    match content {
        ContentView::Group { contents, .. } => {
            lemma_all_is_drawn(contents, lettering);
        },
        ContentView::ClipPath { content: inner, .. } => {
            law_everything_is_drawn(*inner, lettering);
        },
        _ => {},
    }
}

proof fn lemma_all_is_drawn(contents: Seq<ContentView>, lettering: Lettering)
    ensures
        drawings_count(all_drawn(contents, lettering)) == contents_count(contents),
    decreases contents,
{
    if contents.len() > 0 {
        lemma_all_is_drawn(contents.drop_last(), lettering);
        law_everything_is_drawn(contents.last(), lettering);
        let before = all_drawn(contents.drop_last(), lettering);
        assert(before.push(drawn(contents.last(), lettering)).drop_last() =~= before);
    }
}

/// once everything has been loaded, all that can be wrong with a drawing is that there is no tag
/// for an attribute to go into
pub proof fn law_loaded_content_can_be_written(
    content: ContentView,
    lettering: Lettering,
    outer: BoxText<Seq<char>>,
    count: nat,
)
    requires
        is_loaded(content),
    ensures
        transcribed(drawn(content, lettering), outer, count).0 matches Err(e) ==> e
            is NoTopLevelTag,
    decreases content,
{
    match content {
        ContentView::Group { contents, bounding_box, .. } => {
            let boks = match bounding_box {
                Some(boks) => (lettering.boks)(boks),
                None => outer,
            };
            lemma_all_can_be_written(contents, lettering, boks, count);
        },
        ContentView::ClipPath { content: inner, .. } => {
            law_loaded_content_can_be_written(*inner, lettering, outer, count);
        },
        _ => {},
    }
}

proof fn lemma_all_can_be_written(
    contents: Seq<ContentView>,
    lettering: Lettering,
    outer: BoxText<Seq<char>>,
    count: nat,
)
    requires
        are_loaded(contents),
    ensures
        all_transcribed(all_drawn(contents, lettering), outer, count).0 matches Err(e) ==> e
            is NoTopLevelTag,
    decreases contents,
{
    if contents.len() > 0 {
        lemma_all_can_be_written(contents.drop_last(), lettering, outer, count);
        let before = all_drawn(contents.drop_last(), lettering);
        let last = drawn(contents.last(), lettering);
        assert(before.push(last).drop_last() =~= before);
        let (_, middle) = all_transcribed(before, outer, count);
        law_loaded_content_can_be_written(contents.last(), lettering, outer, middle);
    }
}

proof fn lemma_all_drawn_each(contents: Seq<ContentView>, lettering: Lettering)
    ensures
        all_drawn(contents, lettering).len() == contents.len(),
        forall|i: int|
            0 <= i < contents.len() ==> #[trigger] all_drawn(contents, lettering)[i] == drawn(
                contents[i],
                lettering,
            ),
    decreases contents.len(),
{
    if contents.len() > 0 {
        lemma_all_drawn_each(contents.drop_last(), lettering);
        assert forall|i: int| 0 <= i < contents.len() implies #[trigger] all_drawn(
            contents,
            lettering,
        )[i] == drawn(contents[i], lettering) by {
            if i < contents.len() - 1 {
                assert(contents.drop_last()[i] == contents[i]);
            }
        }
    }
}

/// each number is written in its own place: the points of each polyline in order, the ends of a line,
/// the corners of a box, and a marker's location, size and bearing.  nothing else about a piece of
/// content changes, and each thing in a group is drawn as it would be on its own.
pub proof fn law_each_number_is_written_in_its_place(content: ContentView, lettering: Lettering)
    ensures
        ({
            let drawing = drawn(content, lettering);
            &&& content matches ContentView::Line { start, end, class } ==> drawing
                == DrawingView::Line {
                start: (lettering.point)(start),
                end: (lettering.point)(end),
                class,
            }
            &&& content matches ContentView::Rectangle { coordinates, class } ==> drawing
                == DrawingView::Rectangle { coordinates: (lettering.boks)(coordinates), class }
            &&& content matches ContentView::Label { text, location, class } ==> drawing
                == DrawingView::Label { text, location: (lettering.point)(location), class }
            &&& content matches ContentView::Marker {
                detail,
                filename,
                file,
                location,
                size,
                bearing,
                class,
            } ==> drawing == DrawingView::Marker {
                detail,
                location: (lettering.point)(location),
                scale: (lettering.scale)(size),
                bearing: if bearing is Some {
                    Some((lettering.bearing)(bearing->0))
                } else {
                    None
                },
                class,
            }
            &&& content matches ContentView::Path { parts, closed, self_clip, decimation, class }
                ==> {
                &&& drawing is Path
                &&& drawing->closed == closed && drawing->self_clip == self_clip
                    && drawing->Path_class == class
                &&& drawing->parts.len() == parts.len()
                &&& forall|i: int|
                    0 <= i < parts.len() ==> (#[trigger] drawing->parts[i]).len() == parts[i].len()
                &&& forall|i: int, j: int|
                    0 <= i < parts.len() && 0 <= j < parts[i].len() ==> #[trigger] drawing->parts[i][j]
                        == (lettering.point)(parts[i][j])
            }
            &&& content matches ContentView::Group {
                contents,
                class,
                bounding_box,
                region,
                transform,
                clip,
                frame,
            } ==> {
                &&& drawing is Group
                &&& drawing->Group_class == class && drawing->clip == clip && drawing->frame == frame
                &&& drawing->bounding_box == (if bounding_box is Some {
                    Some((lettering.boks)(bounding_box->0))
                } else {
                    None
                })
                &&& drawing->contents.len() == contents.len()
                &&& forall|i: int|
                    0 <= i < contents.len() ==> #[trigger] drawing->contents[i] == drawn(
                        contents[i],
                        lettering,
                    )
            }
            &&& content matches ContentView::ClipPath { content: inner, id } ==> drawing
                == DrawingView::ClipPath { content: Box::new(drawn(*inner, lettering)), id }
        }),
{
    if let ContentView::Group { contents, .. } = content {
        lemma_all_drawn_each(contents, lettering);
    }
}

} // verus!
