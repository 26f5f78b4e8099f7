//! Downsampling everything that has been loaded.

use crate::content::{
    content_count, contents_count, contents_view, lemma_contents_view, Content, ContentView,
    LayerView, ShapeRecordView,
};
use crate::decimate::{
    computes, decimate, decimated, is_zero_at_ends, law_decimation_stays_within_tolerance,
    law_paths_can_be_decimated, Metric,
};
use crate::geometry::{parts_view, Rect, SerializablePoint};
use crate::graticule::{grid_lines, Grid, Rule};
use crate::layers::{all_shown, are_inhabited, marker_data, shown};
use crate::load::{all_loaded, are_loaded, inner_region, is_loaded, loaded};
use crate::number::Number;
use vstd::prelude::*;

verus! {

/// each of the polylines with only as many points as it takes to stay within the tolerance
pub open spec fn thinned_parts(
    parts: Seq<Seq<SerializablePoint>>,
    tolerance: Number,
    metric: Metric,
) -> Option<Seq<Seq<SerializablePoint>>>
    decreases parts.len(),
{
    if parts.len() == 0 {
        Some(Seq::empty())
    } else {
        match (
            thinned_parts(parts.drop_last(), tolerance, metric),
            decimated(parts.last(), tolerance, metric),
        ) {
            (Some(before), Some(part)) => Some(before.push(part)),
            _ => None,
        }
    }
}

/// the content with each path decimated that is still to be decimated
pub open spec fn thinned(content: ContentView, metric: Metric) -> Option<ContentView>
    decreases content,
{
    match content {
        ContentView::Path { parts, closed, self_clip, decimation: Some(tolerance), class } =>
            match thinned_parts(parts, tolerance, metric) {
            Some(parts) => Some(
                ContentView::Path { parts, closed, self_clip, decimation: None, class },
            ),
            None => None,
        },
        ContentView::Group { contents, class, bounding_box, region, transform, clip, frame } =>
            match all_thinned(contents, metric) {
            Some(contents) => Some(
                ContentView::Group {
                    contents,
                    class,
                    bounding_box,
                    region,
                    transform,
                    clip,
                    frame,
                },
            ),
            None => None,
        },
        ContentView::ClipPath { content, id } => match thinned(*content, metric) {
            Some(content) => Some(ContentView::ClipPath { content: Box::new(content), id }),
            None => None,
        },
        other => Some(other),
    }
}

/// the pieces of content with each path decimated that is still to be decimated
pub open spec fn all_thinned(contents: Seq<ContentView>, metric: Metric) -> Option<
    Seq<ContentView>,
>
    decreases contents,
{
    if contents.len() == 0 {
        Some(Seq::empty())
    } else {
        match (all_thinned(contents.drop_last(), metric), thinned(contents.last(), metric)) {
            (Some(before), Some(content)) => Some(before.push(content)),
            _ => None,
        }
    }
}

proof fn lemma_first_thick_part(
    parts: Seq<Seq<SerializablePoint>>,
    tolerance: Number,
    metric: Metric,
    n: int,
)
    requires
        0 <= n <= parts.len(),
        thinned_parts(parts.take(n), tolerance, metric) is None,
    ensures
        thinned_parts(parts, tolerance, metric) is None,
    decreases parts.len(),
{
    if n < parts.len() {
        assert(parts.drop_last().take(n) =~= parts.take(n));
        lemma_first_thick_part(parts.drop_last(), tolerance, metric, n);
    } else {
        assert(parts.take(n) =~= parts);
    }
}

proof fn lemma_first_thick(contents: Seq<ContentView>, metric: Metric, n: int)
    requires
        0 <= n <= contents.len(),
        all_thinned(contents.take(n), metric) is None,
    ensures
        all_thinned(contents, metric) is None,
    decreases contents.len(),
{
    if n < contents.len() {
        assert(contents.drop_last().take(n) =~= contents.take(n));
        lemma_first_thick(contents.drop_last(), metric, n);
    } else {
        assert(contents.take(n) =~= contents);
    }
}

/// downsample each of the polylines
fn decimate_parts<F: Fn(SerializablePoint, SerializablePoint, SerializablePoint) -> Number>(
    parts: &Vec<Vec<SerializablePoint>>,
    tolerance: Number,
    distance: &F,
) -> (r: Option<Vec<Vec<SerializablePoint>>>)
    requires
        forall|a: SerializablePoint, b: SerializablePoint, p: SerializablePoint|
            #[trigger] call_requires(*distance, (a, b, p)),
    ensures
        forall|metric: Metric| #[trigger]
            computes(*distance, metric) ==> match r {
                Some(result) => thinned_parts(parts_view(parts@), tolerance, metric) == Some(
                    parts_view(result@),
                ),
                None => thinned_parts(parts_view(parts@), tolerance, metric) is None,
            },
{
    let ghost all = parts_view(parts@);
    let mut result: Vec<Vec<SerializablePoint>> = Vec::new();
    assert(all.take(0) =~= Seq::empty());
    assert(parts_view(result@) =~= Seq::empty());
    for i in 0..parts.len()
        invariant
            all == parts_view(parts@),
            forall|a: SerializablePoint, b: SerializablePoint, p: SerializablePoint|
                #[trigger] call_requires(*distance, (a, b, p)),
            forall|metric: Metric| #[trigger]
                computes(*distance, metric) ==> thinned_parts(
                    all.take(i as int),
                    tolerance,
                    metric,
                ) == Some(parts_view(result@)),
    {
        let part = &parts[i];
        assert(all.take(i + 1).drop_last() =~= all.take(i as int));
        assert(all.take(i + 1).last() == part@);
        let thin = if part.is_empty() {
            None
        } else {
            decimate(part.as_slice(), tolerance, distance)
        };
        match thin {
            Some(thin) => {
                let ghost before = result@;
                result.push(thin);
                assert(parts_view(result@) =~= parts_view(before).push(thin@));
            },
            None => {
                proof {
                    assert forall|metric: Metric| #[trigger]
                        computes(*distance, metric) implies thinned_parts(all, tolerance, metric)
                        is None by {
                        lemma_first_thick_part(all, tolerance, metric, i + 1);
                    }
                }
                return None;
            },
        }
    }
    assert(all.take(all.len() as int) =~= all);
    Some(result)
}

/// downsample every path in this content that is still to be decimated
pub fn decimate_content<
    F: Fn(SerializablePoint, SerializablePoint, SerializablePoint) -> Number,
>(content: Content, distance: &F) -> (r: Option<Content>)
    requires
        forall|a: SerializablePoint, b: SerializablePoint, p: SerializablePoint|
            #[trigger] call_requires(*distance, (a, b, p)),
    ensures
        forall|metric: Metric| #[trigger]
            computes(*distance, metric) ==> match r {
                Some(result) => thinned(content@, metric) == Some(result@),
                None => thinned(content@, metric) is None,
            },
    decreases content,
{
    match content {
        Content::Path { parts, closed, self_clip, decimation, class } => match decimation {
            Some(tolerance) => match decimate_parts(&parts, tolerance, distance) {
                Some(parts) => Some(
                    Content::Path { parts, closed, self_clip, decimation: None, class },
                ),
                None => None,
            },
            None => Some(Content::Path { parts, closed, self_clip, decimation, class }),
        },
        Content::Group { contents, class, bounding_box, region, transform, clip, frame } => {
            match decimate_contents(contents, distance) {
                Some(contents) => Some(
                    Content::Group {
                        contents,
                        class,
                        bounding_box,
                        region,
                        transform,
                        clip,
                        frame,
                    },
                ),
                None => None,
            }
        },
        Content::ClipPath { content, id } => match decimate_content(*content, distance) {
            Some(content) => Some(Content::ClipPath { content: Box::new(content), id }),
            None => None,
        },
        other => Some(other),
    }
}

/// downsample every path in one piece of content after another
fn decimate_contents<
    F: Fn(SerializablePoint, SerializablePoint, SerializablePoint) -> Number,
>(contents: Vec<Content>, distance: &F) -> (r: Option<Vec<Content>>)
    requires
        forall|a: SerializablePoint, b: SerializablePoint, p: SerializablePoint|
            #[trigger] call_requires(*distance, (a, b, p)),
    ensures
        forall|metric: Metric| #[trigger]
            computes(*distance, metric) ==> match r {
                Some(result) => all_thinned(contents_view(contents@), metric) == Some(
                    contents_view(result@),
                ),
                None => all_thinned(contents_view(contents@), metric) is None,
            },
    decreases contents,
{
    let ghost all = contents@;
    let ghost goal = contents_view(all);
    let mut result: Vec<Content> = Vec::new();
    proof {
        lemma_contents_view(all);
        assert(goal.take(0) =~= Seq::empty());
    }
    for content in it: contents
        invariant
            it.seq() == all,
            all == contents@,
            decreases_to!(contents => all),
            goal == contents_view(all),
            goal.len() == all.len(),
            forall|i: int| 0 <= i < all.len() ==> #[trigger] goal[i] == all[i]@,
            forall|a: SerializablePoint, b: SerializablePoint, p: SerializablePoint|
                #[trigger] call_requires(*distance, (a, b, p)),
            forall|metric: Metric| #[trigger]
                computes(*distance, metric) ==> all_thinned(goal.take(it.index()), metric) == Some(
                    contents_view(result@),
                ),
    {
        let ghost i = it.index();
        proof {
            assert(goal.take(i + 1).drop_last() =~= goal.take(i));
            assert(goal.take(i + 1).last() == content@);
        }
        match decimate_content(content, distance) {
            Some(content) => {
                let ghost before = result@;
                result.push(content);
                assert(result@.drop_last() =~= before);
            },
            None => {
                proof {
                    assert forall|metric: Metric| #[trigger]
                        computes(*distance, metric) implies all_thinned(goal, metric) is None by {
                        lemma_first_thick(goal, metric, i + 1);
                    }
                }
                return None;
            },
        }
    }
    assert(goal.take(all.len() as int) =~= goal);
    Some(result)
}

/// whether no path in the content is still to be decimated
pub open spec fn is_thin(content: ContentView) -> bool
    decreases content,
{
    match content {
        ContentView::Path { decimation, .. } => decimation is None,
        ContentView::Group { contents, .. } => are_thin(contents),
        ContentView::ClipPath { content, .. } => is_thin(*content),
        _ => true,
    }
}

/// whether no path in any of the pieces of content is still to be decimated
pub open spec fn are_thin(contents: Seq<ContentView>) -> bool
    decreases contents,
{
    contents.len() > 0 ==> are_thin(contents.drop_last()) && is_thin(contents.last())
}

/// afterward there is nothing left to decimate; nothing else is added or taken away, the class stays
/// the same, and what has been loaded stays loaded
pub proof fn law_nothing_is_left_to_decimate(content: ContentView, metric: Metric)
    ensures
        thinned(content, metric) matches Some(result) ==> {
            &&& is_thin(result)
            &&& content_count(result) == content_count(content)
            &&& result.own_class() == content.own_class()
            &&& is_loaded(content) ==> is_loaded(result)
        },
    decreases content,
{
    match content {
        ContentView::Group { contents, .. } => {
            lemma_nothing_is_left_of_all(contents, metric);
        },
        ContentView::ClipPath { content: inner, .. } => {
            law_nothing_is_left_to_decimate(*inner, metric);
        },
        _ => {},
    }
}

proof fn lemma_nothing_is_left_of_all(contents: Seq<ContentView>, metric: Metric)
    ensures
        all_thinned(contents, metric) matches Some(result) ==> {
            &&& are_thin(result)
            &&& contents_count(result) == contents_count(contents)
            &&& are_loaded(contents) ==> are_loaded(result)
        },
    decreases contents,
{
    if contents.len() > 0 {
        lemma_nothing_is_left_of_all(contents.drop_last(), metric);
        law_nothing_is_left_to_decimate(contents.last(), metric);
        if let Some(before) = all_thinned(contents.drop_last(), metric) {
            if let Some(content) = thinned(contents.last(), metric) {
                assert(before.push(content).drop_last() =~= before);
            }
        }
    }
}

/// how many points there are in the polylines
pub open spec fn points_in(parts: Seq<Seq<SerializablePoint>>) -> nat
    decreases parts.len(),
{
    if parts.len() == 0 {
        0
    } else {
        points_in(parts.drop_last()) + parts.last().len()
    }
}

/// there are as many polylines as before, and none of them has got any longer
pub proof fn law_polylines_only_get_shorter(
    parts: Seq<Seq<SerializablePoint>>,
    tolerance: Number,
    metric: Metric,
)
    ensures
        thinned_parts(parts, tolerance, metric) matches Some(thin) ==> {
            &&& thin.len() == parts.len()
            &&& points_in(thin) <= points_in(parts)
            &&& forall|i: int|
                0 <= i < parts.len() ==> {
                    &&& Some(#[trigger] thin[i]) == decimated(parts[i], tolerance, metric)
                    &&& thin[i].len() <= parts[i].len()
                }
        },
    decreases parts.len(),
{
    if parts.len() > 0 {
        law_polylines_only_get_shorter(parts.drop_last(), tolerance, metric);
        if let Some(before) = thinned_parts(parts.drop_last(), tolerance, metric) {
            if let Some(part) = decimated(parts.last(), tolerance, metric) {
                law_decimation_stays_within_tolerance(parts.last(), tolerance, metric);
                assert(before.push(part).drop_last() =~= before);
            }
        }
    }
}

/// where there is nothing to decimate, nothing changes
pub proof fn law_thin_content_stays(content: ContentView, metric: Metric)
    requires
        is_thin(content),
    ensures
        thinned(content, metric) == Some(content),
    decreases content,
{
    match content {
        ContentView::Group { contents, .. } => {
            lemma_all_thin_content_stays(contents, metric);
        },
        ContentView::ClipPath { content: inner, .. } => {
            law_thin_content_stays(*inner, metric);
        },
        _ => {},
    }
}

proof fn lemma_all_thin_content_stays(contents: Seq<ContentView>, metric: Metric)
    requires
        are_thin(contents),
    ensures
        all_thinned(contents, metric) == Some(contents),
    decreases contents,
{
    if contents.len() > 0 {
        lemma_all_thin_content_stays(contents.drop_last(), metric);
        law_thin_content_stays(contents.last(), metric);
        assert(contents.drop_last().push(contents.last()) =~= contents);
    } else {
        assert(contents =~= Seq::empty());
    }
}

/// whether all that is to be decimated in the content can be: the tolerances are not negative, and
/// there are points in the polylines
pub open spec fn is_decimable(content: ContentView) -> bool
    decreases content,
{
    match content {
        ContentView::Path { parts, decimation, .. } => decimation matches Some(tolerance) ==> {
            &&& !tolerance.below(Number { bits: 0 })
            &&& are_inhabited(parts)
        },
        ContentView::Layer { layer } => layer.decimation matches Some(tolerance)
            ==> !tolerance.below(Number { bits: 0 }),
        ContentView::Group { contents, .. } => are_decimable(contents),
        ContentView::ClipPath { content, .. } => is_decimable(*content),
        _ => true,
    }
}

/// whether all that is to be decimated in the pieces of content can be
pub open spec fn are_decimable(contents: Seq<ContentView>) -> bool
    decreases contents,
{
    contents.len() > 0 ==> are_decimable(contents.drop_last()) && is_decimable(contents.last())
}

proof fn lemma_are_decimable(contents: Seq<ContentView>)
    requires
        forall|i: int| 0 <= i < contents.len() ==> is_decimable(#[trigger] contents[i]),
    ensures
        are_decimable(contents),
    decreases contents.len(),
{
    if contents.len() > 0 {
        let rest = contents.drop_last();
        assert forall|i: int| 0 <= i < rest.len() implies is_decimable(#[trigger] rest[i]) by {
            assert(rest[i] == contents[i]);
        }
        lemma_are_decimable(rest);
    }
}

proof fn lemma_parts_can_be_thinned(
    parts: Seq<Seq<SerializablePoint>>,
    tolerance: Number,
    metric: Metric,
)
    requires
        !tolerance.below(Number { bits: 0 }),
        are_inhabited(parts),
        is_zero_at_ends(metric),
    ensures
        thinned_parts(parts, tolerance, metric) is Some,
    decreases parts.len(),
{
    if parts.len() > 0 {
        let rest = parts.drop_last();
        assert forall|i: int| 0 <= i < rest.len() implies (#[trigger] rest[i]).len() > 0 by {
            assert(rest[i] == parts[i]);
        }
        lemma_parts_can_be_thinned(rest, tolerance, metric);
        assert(parts[parts.len() - 1].len() > 0);
        law_paths_can_be_decimated(parts.last(), tolerance, metric);
    }
}

/// content can be decimated if no tolerance in it is negative and there are points in its polylines
pub proof fn law_decimable_content_can_be_decimated(content: ContentView, metric: Metric)
    requires
        is_decimable(content),
        is_zero_at_ends(metric),
    ensures
        thinned(content, metric) is Some,
    decreases content,
{
    match content {
        ContentView::Path { parts, decimation: Some(tolerance), .. } => {
            lemma_parts_can_be_thinned(parts, tolerance, metric);
        },
        ContentView::Group { contents, .. } => {
            lemma_all_can_be_decimated(contents, metric);
        },
        ContentView::ClipPath { content: inner, .. } => {
            law_decimable_content_can_be_decimated(*inner, metric);
        },
        _ => {},
    }
}

proof fn lemma_all_can_be_decimated(contents: Seq<ContentView>, metric: Metric)
    requires
        are_decimable(contents),
        is_zero_at_ends(metric),
    ensures
        all_thinned(contents, metric) is Some,
    decreases contents,
{
    if contents.len() > 0 {
        lemma_all_can_be_decimated(contents.drop_last(), metric);
        law_decimable_content_can_be_decimated(contents.last(), metric);
    }
}

/// all that a layer makes of its shapes can be decimated
proof fn lemma_shown_is_decimable(
    layer: LayerView,
    region: Rect,
    marker: Option<(Seq<char>, Number)>,
    shapes: Seq<ShapeRecordView>,
)
    requires
        layer.decimation matches Some(tolerance) ==> !tolerance.below(Number { bits: 0 }),
    ensures
        all_shown(layer, region, marker, shapes) matches Some(Ok(contents)) ==> are_decimable(
            contents,
        ),
    decreases shapes.len(),
{
    if shapes.len() > 0 {
        lemma_shown_is_decimable(layer, region, marker, shapes.drop_last());
        if let Some(Ok(contents)) = all_shown(layer, region, marker, shapes.drop_last()) {
            if let Some(Ok(Some(content))) = shown(layer, region, marker, shapes.last()) {
                assert(is_decimable(content)) by {
                    if let ContentView::Group { contents: both, .. } = content {
                        lemma_are_decimable(both);
                    }
                }
                assert(contents.push(content).drop_last() =~= contents);
            }
        }
    }
}

/// what can be decimated before it is loaded can be decimated afterward
pub proof fn law_loaded_content_can_be_decimated(
    content: ContentView,
    outer_region: Option<Rect>,
    rule: Rule,
)
    requires
        is_decimable(content),
    ensures
        loaded(content, outer_region, rule) matches Some(Ok(result)) ==> is_decimable(result),
    decreases content,
{
    match content {
        ContentView::Group { contents, region, .. } => {
            lemma_all_loaded_can_be_decimated(contents, inner_region(region, outer_region), rule);
        },
        ContentView::ClipPath { content: inner, .. } => {
            law_loaded_content_can_be_decimated(*inner, outer_region, rule);
        },
        ContentView::Layer { layer } => {
            if let Some(region) = outer_region {
                if let Some(Ok(marker)) = marker_data(layer) {
                    if let Some(shapefile) = layer.shapefile {
                        lemma_shown_is_decimable(layer, region, marker, shapefile.shapes);
                    }
                }
            }
        },
        ContentView::Graticule { parallel_spacing, meridian_spacing, .. } => {
            if let Some(region) = outer_region {
                let grid = Grid { region, parallel_spacing, meridian_spacing };
                lemma_are_decimable(grid_lines(grid, rule));
            }
        },
        _ => {},
    }
}

proof fn lemma_all_loaded_can_be_decimated(
    contents: Seq<ContentView>,
    outer_region: Option<Rect>,
    rule: Rule,
)
    requires
        are_decimable(contents),
    ensures
        all_loaded(contents, outer_region, rule) matches Some(Ok(result)) ==> are_decimable(result),
    decreases contents,
{
    if contents.len() > 0 {
        lemma_all_loaded_can_be_decimated(contents.drop_last(), outer_region, rule);
        law_loaded_content_can_be_decimated(contents.last(), outer_region, rule);
        if let Some(Ok(done)) = all_loaded(contents.drop_last(), outer_region, rule) {
            if let Some(Ok(content)) = loaded(contents.last(), outer_region, rule) {
                assert(done.push(content).drop_last() =~= done);
            }
        }
    }
}

proof fn lemma_all_thinned_each(contents: Seq<ContentView>, metric: Metric)
    ensures
        match all_thinned(contents, metric) {
            Some(result) => {
                &&& result.len() == contents.len()
                &&& forall|i: int|
                    0 <= i < contents.len() ==> thinned(#[trigger] contents[i], metric) == Some(
                        result[i],
                    )
            },
            None => exists|i: int|
                0 <= i < contents.len() && thinned(#[trigger] contents[i], metric) is None,
        },
    decreases contents.len(),
{
    if contents.len() > 0 {
        let rest = contents.drop_last();
        lemma_all_thinned_each(rest, metric);
        assert forall|i: int| 0 <= i < rest.len() implies #[trigger] contents[i] == rest[i] by {}
        if thinned(contents.last(), metric) is None {
            assert(contents[contents.len() - 1] == contents.last());
        } else if all_thinned(rest, metric) is None {
            let i = choose|i: int|
                0 <= i < rest.len() && thinned(#[trigger] rest[i], metric) is None;
            assert(contents[i] == rest[i]);
        }
    }
}

proof fn lemma_thinned_parts_each(
    parts: Seq<Seq<SerializablePoint>>,
    tolerance: Number,
    metric: Metric,
)
    ensures
        match thinned_parts(parts, tolerance, metric) {
            Some(thin) => {
                &&& thin.len() == parts.len()
                &&& forall|i: int|
                    0 <= i < parts.len() ==> Some(#[trigger] thin[i]) == decimated(
                        parts[i],
                        tolerance,
                        metric,
                    )
            },
            None => exists|i: int|
                0 <= i < parts.len() && decimated(#[trigger] parts[i], tolerance, metric) is None,
        },
    decreases parts.len(),
{
    if parts.len() > 0 {
        let rest = parts.drop_last();
        lemma_thinned_parts_each(rest, tolerance, metric);
        assert forall|i: int| 0 <= i < rest.len() implies #[trigger] parts[i] == rest[i] by {}
        if decimated(parts.last(), tolerance, metric) is None {
            assert(parts[parts.len() - 1] == parts.last());
        } else if thinned_parts(rest, tolerance, metric) is None {
            let i = choose|i: int|
                0 <= i < rest.len() && decimated(#[trigger] rest[i], tolerance, metric) is None;
            assert(parts[i] == rest[i]);
        }
    }
}

/// every polyline of a path that is to be decimated is, whether the path is closed or not, and each
/// stays in its place among the others.  nothing else about the path changes.
pub proof fn law_every_polyline_is_decimated(path: ContentView, metric: Metric)
    requires
        path is Path,
    ensures
        path->decimation is None ==> thinned(path, metric) == Some(path),
        path->decimation matches Some(tolerance) ==> match thinned(path, metric) {
            Some(result) => {
                &&& result is Path
                &&& result->closed == path->closed
                &&& result->self_clip == path->self_clip
                &&& result->decimation is None
                &&& result->Path_class == path->Path_class
                &&& result->parts.len() == path->parts.len()
                &&& forall|i: int|
                    0 <= i < path->parts.len() ==> Some(#[trigger] result->parts[i]) == decimated(
                        path->parts[i],
                        tolerance,
                        metric,
                    )
            },
            None => exists|i: int|
                0 <= i < path->parts.len() && decimated(
                    #[trigger] path->parts[i],
                    tolerance,
                    metric,
                ) is None,
        },
{
    if path->decimation is Some {
        lemma_thinned_parts_each(path->parts, path->decimation->0, metric);
    }
}

/// each thing in a group is decimated as it would be on its own, and so is what is in a clip path;
/// nothing else about them changes.  what has no polylines to decimate stays as it is.
pub proof fn law_groups_are_decimated_thing_by_thing(content: ContentView, metric: Metric)
    ensures
        content is Group ==> match thinned(content, metric) {
            Some(result) => {
                &&& result is Group
                &&& result->Group_class == content->Group_class
                &&& result->bounding_box == content->bounding_box
                &&& result->region == content->region
                &&& result->transform == content->transform
                &&& result->clip == content->clip
                &&& result->frame == content->frame
                &&& result->contents.len() == content->contents.len()
                &&& forall|i: int|
                    0 <= i < content->contents.len() ==> thinned(
                        #[trigger] content->contents[i],
                        metric,
                    ) == Some(result->contents[i])
            },
            None => exists|i: int|
                0 <= i < content->contents.len() && thinned(
                    #[trigger] content->contents[i],
                    metric,
                ) is None,
        },
        content matches ContentView::ClipPath { content: inner, id } ==> match thinned(
            *inner,
            metric,
        ) {
            Some(thin) => thinned(content, metric) == Some(
                ContentView::ClipPath { content: Box::new(thin), id },
            ),
            None => thinned(content, metric) is None,
        },
        !(content is Group) && !(content is ClipPath) && !(content is Path) ==> thinned(
            content,
            metric,
        ) == Some(content),
{
    if let ContentView::Group { contents, .. } = content {
        lemma_all_thinned_each(contents, metric);
    }
}

} // verus!
