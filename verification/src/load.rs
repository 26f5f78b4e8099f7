//! Resolving layers and graticules into groups of shapes.

use crate::content::{
    contents_view, lemma_contents_view, Case, Content, ContentView, LayerView, ShapeRecordView,
};
use crate::errors::{Failure, MapError};
use crate::geometry::Rect;
use crate::graticule::{can_rule, draw_grid, grid_lines, rules, Grid, Rule, Ruler};
use crate::labels::{has_initial, label};
use crate::layers::{
    all_shown, are_inhabited, load_layer, loaded_layer, marker_data, plain_group, shown, Outcome,
};
use crate::markers::{indentation_is_usable, marker_detail, try_load_SVG};
use crate::number::Number;
use crate::records::{lookup, FieldValue};
use vstd::prelude::*;

verus! {

/// the region that applies inside a group
pub open spec fn inner_region(sub_region: Option<Rect>, outer_region: Option<Rect>) -> Option<
    Rect,
> {
    if sub_region is Some {
        sub_region
    } else {
        outer_region
    }
}

/// what a marker is resolved into
pub open spec fn loaded_marker(marker: ContentView) -> Outcome<ContentView> {
    match marker {
        ContentView::Marker { detail, filename, file, location, size, bearing, class } => {
            let found = match (detail, filename) {
                (Some(_), Some(_)) => Some(Err(MapError::DetailAndFilename)),
                (Some(detail), None) => Some(Ok(detail)),
                (None, Some(filename)) => if indentation_is_usable(file) {
                    Some(marker_detail(filename, file))
                } else {
                    None
                },
                (None, None) => Some(Err(MapError::NeitherDetailNorFilename)),
            };
            match found {
                Some(Ok(detail)) => Some(
                    Ok(
                        ContentView::Marker {
                            detail: Some(detail),
                            filename: None,
                            file: None,
                            location,
                            size,
                            bearing,
                            class,
                        },
                    ),
                ),
                Some(Err(e)) => Some(Err(e)),
                None => None,
            }
        },
        other => Some(Ok(other)),
    }
}

/// what a piece of content is resolved into, inside the given region
pub open spec fn loaded(
    content: ContentView,
    outer_region: Option<Rect>,
    rule: Rule,
) -> Outcome<ContentView>
    decreases content,
{
    match content {
        ContentView::Group { contents, class, bounding_box, region, transform, clip, frame } =>
            match all_loaded(contents, inner_region(region, outer_region), rule) {
            Some(Ok(contents)) => Some(
                Ok(
                    ContentView::Group {
                        contents,
                        class,
                        bounding_box,
                        region,
                        transform,
                        clip,
                        frame,
                    },
                ),
            ),
            Some(Err(e)) => Some(Err(e)),
            None => None,
        },
        ContentView::ClipPath { content, id } => match loaded(*content, outer_region, rule) {
            Some(Ok(content)) => Some(
                Ok(ContentView::ClipPath { content: Box::new(content), id }),
            ),
            other => other,
        },
        ContentView::Layer { layer } => match outer_region {
            Some(region) => loaded_layer(layer, region),
            None => Some(Err(MapError::NoRegion)),
        },
        ContentView::Graticule { parallel_spacing, meridian_spacing, class } =>
            match outer_region {
            Some(region) => Some(
                Ok(
                    plain_group(
                        grid_lines(Grid { region, parallel_spacing, meridian_spacing }, rule),
                        class,
                    ),
                ),
            ),
            None => Some(Err(MapError::NoRegion)),
        },
        ContentView::Marker { .. } => loaded_marker(content),
        other => Some(Ok(other)),
    }
}

/// what the pieces of content are resolved into, unless something is wrong with one of them
pub open spec fn all_loaded(
    contents: Seq<ContentView>,
    outer_region: Option<Rect>,
    rule: Rule,
) -> Outcome<Seq<ContentView>>
    decreases contents,
{
    if contents.len() == 0 {
        Some(Ok(Seq::empty()))
    } else {
        match all_loaded(contents.drop_last(), outer_region, rule) {
            Some(Ok(done)) => match loaded(contents.last(), outer_region, rule) {
                Some(Ok(content)) => Some(Ok(done.push(content))),
                Some(Err(e)) => Some(Err(e)),
                None => None,
            },
            other => other,
        }
    }
}

/// what is wrong with the first pieces of content is wrong with all of them
proof fn lemma_first_unloadable(
    contents: Seq<ContentView>,
    outer_region: Option<Rect>,
    rule: Rule,
    n: int,
)
    requires
        0 <= n <= contents.len(),
        !(all_loaded(contents.take(n), outer_region, rule) matches Some(Ok(_))),
    ensures
        all_loaded(contents, outer_region, rule) == all_loaded(
            contents.take(n),
            outer_region,
            rule,
        ),
    decreases contents.len(),
{
    if n < contents.len() {
        assert(contents.drop_last().take(n) =~= contents.take(n));
        lemma_first_unloadable(contents.drop_last(), outer_region, rule, n);
    } else {
        assert(contents.take(n) =~= contents);
    }
}

/// what a result holds
pub open spec fn outcome_view(r: Option<Result<Content, Failure>>) -> Outcome<ContentView> {
    match r {
        Some(Ok(content)) => Some(Ok(content@)),
        Some(Err(e)) => Some(Err(e@)),
        None => None,
    }
}

/// whether this is how it went, whatever came of it
pub open spec fn went<S, T>(r: Option<Result<S, Failure>>, outcome: Outcome<T>) -> bool {
    match r {
        Some(Ok(_)) => outcome matches Some(Ok(_)),
        Some(Err(e)) => outcome == Some(Err::<T, _>(e@)),
        None => outcome is None,
    }
}

/// return a copy of this content that is the same except that any Layers and Graticules are
/// resolved into groups of Paths, if that can be done at all
pub fn try_load_content<F, L, M>(
    content: Content,
    outer_region: &Option<Rect>,
    ruler: &Ruler<F, L, M>,
) -> (r: Option<Result<Content, Failure>>) where
    F: Fn(Number, Number) -> i32,
    L: Fn(Number, Number) -> i32,
    M: Fn(i32, Number) -> Number,

    requires
        can_rule(*ruler),
    ensures
        forall|rule: Rule| #[trigger]
            rules(*ruler, rule) ==> outcome_view(r) == loaded(content@, *outer_region, rule),
        forall|rule: Rule| went(r, #[trigger] loaded(content@, *outer_region, rule)),
    decreases content,
{
    match content {
        // for a Group, load its children recursively
        Content::Group { contents, class, bounding_box, region, transform, clip, frame } => {
            let inner = match &region {
                Some(_) => &region,
                None => outer_region,
            };
            let ghost goal = contents_view(contents@);
            let r = load_contents(contents, inner, ruler);
            assert forall|rule: Rule| went(r, #[trigger] loaded(content@, *outer_region, rule)) by {
                assert(went(r, all_loaded(goal, *inner, rule)));
            }
            match r {
                Some(Ok(contents)) => Some(
                    Ok(
                        Content::Group {
                            contents,
                            class,
                            bounding_box,
                            region,
                            transform,
                            clip,
                            frame,
                        },
                    ),
                ),
                Some(Err(e)) => Some(Err(e)),
                None => None,
            }
        },
        // for a ClipPath, similarly just load its child
        Content::ClipPath { content: inner, id } => {
            let ghost given = (*inner)@;
            let r = try_load_content(*inner, outer_region, ruler);
            assert forall|rule: Rule| went(r, #[trigger] loaded(content@, *outer_region, rule)) by {
                assert(went(r, loaded(given, *outer_region, rule)));
            }
            match r {
                Some(Ok(content)) => Some(Ok(Content::ClipPath { content: Box::new(content), id })),
                other => other,
            }
        },
        // resolve a Layer by making a bunch of Paths or Markers
        Content::Layer { layer } => match outer_region {
            Some(region) => load_layer(layer, region),
            None => Some(Err(MapError::NoRegion)),
        },
        // resolve a Graticule by generating an array of lines
        Content::Graticule { parallel_spacing, meridian_spacing, class } => match outer_region {
            Some(region) => {
                let grid = Grid { region: *region, parallel_spacing, meridian_spacing };
                Some(
                    Ok(
                        Content::Group {
                            contents: draw_grid(grid, ruler),
                            class,
                            bounding_box: None,
                            region: None,
                            transform: None,
                            clip: Some(false),
                            frame: Some(false),
                        },
                    ),
                )
            },
            None => Some(Err(MapError::NoRegion)),
        },
        // for markers, if a filename is given, load the file
        Content::Marker { detail, filename, file, location, size, bearing, class } => {
            let detail = match (detail, filename) {
                (Some(_), Some(_)) => {
                    return Some(Err(MapError::DetailAndFilename));
                },
                (Some(detail), None) => detail,
                (None, Some(filename)) => match try_load_SVG(filename.as_str(), &file) {
                    Some(Ok(detail)) => detail,
                    Some(Err(e)) => {
                        return Some(Err(e));
                    },
                    None => {
                        return None;
                    },
                },
                (None, None) => {
                    return Some(Err(MapError::NeitherDetailNorFilename));
                },
            };
            Some(
                Ok(
                    Content::Marker {
                        detail: Some(detail),
                        filename: None,
                        file: None,
                        location,
                        size,
                        bearing,
                        class,
                    },
                ),
            )
        },
        // any other form of content can just continue on as it is
        other => Some(Ok(other)),
    }
}

/// load one piece of content after another
fn load_contents<F, L, M>(
    contents: Vec<Content>,
    region: &Option<Rect>,
    ruler: &Ruler<F, L, M>,
) -> (r: Option<Result<Vec<Content>, Failure>>) where
    F: Fn(Number, Number) -> i32,
    L: Fn(Number, Number) -> i32,
    M: Fn(i32, Number) -> Number,

    requires
        can_rule(*ruler),
    ensures
        r matches Some(Ok(result)) ==> forall|rule: Rule| #[trigger]
            rules(*ruler, rule) ==> all_loaded(contents_view(contents@), *region, rule) == Some(
                Ok::<_, MapError<Seq<char>>>(contents_view(result@)),
            ),
        forall|rule: Rule|
            went(r, #[trigger] all_loaded(contents_view(contents@), *region, rule)),
    decreases contents,
{
    let ghost all = contents@;
    let ghost goal = contents_view(all);
    let mut loaded_contents: Vec<Content> = Vec::new();
    proof {
        lemma_contents_view(all);
        assert(goal.take(0) =~= Seq::empty());
    }
    for content in it: contents
        invariant
            it.seq() == all,
            all == contents@,
            decreases_to!(contents => all),
            goal == contents_view(all),
            goal.len() == all.len(),
            forall|i: int| 0 <= i < all.len() ==> #[trigger] goal[i] == all[i]@,
            can_rule(*ruler),
            forall|rule: Rule| #[trigger]
                rules(*ruler, rule) ==> all_loaded(goal.take(it.index()), *region, rule) == Some(
                    Ok::<_, MapError<Seq<char>>>(contents_view(loaded_contents@)),
                ),
            forall|rule: Rule|
                (#[trigger] all_loaded(goal.take(it.index()), *region, rule)) matches Some(Ok(_)),
    {
        let ghost i = it.index();
        let ghost given = content@;
        proof {
            assert(goal.take(i + 1).drop_last() =~= goal.take(i));
            assert(goal.take(i + 1).last() == content@);
        }
        let r = try_load_content(content, region, ruler);
        proof {
            assert forall|rule: Rule| #[trigger]
                all_loaded(goal.take(i + 1), *region, rule) == (match loaded(
                given,
                *region,
                rule,
            ) {
                Some(Ok(last)) => Some(
                    Ok(all_loaded(goal.take(i), *region, rule)->0->Ok_0.push(last)),
                ),
                Some(Err(e)) => Some(Err(e)),
                None => None,
            }) by {
                assert(all_loaded(goal.take(i), *region, rule) matches Some(Ok(_)));
            }
            if !(r matches Some(Ok(_))) {
                assert forall|rule: Rule| #[trigger]
                    all_loaded(goal, *region, rule) == all_loaded(
                    goal.take(i + 1),
                    *region,
                    rule,
                ) by {
                    assert(went(r, loaded(given, *region, rule)));
                    lemma_first_unloadable(goal, *region, rule, i + 1);
                }
            }
        }
        match r {
            Some(Ok(content)) => {
                let ghost before = loaded_contents@;
                loaded_contents.push(content);
                assert(loaded_contents@.drop_last() =~= before);
                assert forall|rule: Rule| (#[trigger] all_loaded(goal.take(i + 1), *region, rule))
                    matches Some(Ok(_)) by {
                    assert(went(r, loaded(given, *region, rule)));
                }
            },
            Some(Err(e)) => {
                assert forall|rule: Rule| #[trigger] all_loaded(goal, *region, rule) == Some(
                    Err::<Seq<ContentView>, _>(e@),
                ) by {
                    assert(went(r, loaded(given, *region, rule)));
                    assert(all_loaded(goal.take(i + 1), *region, rule) is Some);
                }
                return Some(Err(e));
            },
            None => {
                assert forall|rule: Rule| #[trigger] all_loaded(goal, *region, rule) is None by {
                    assert(went(r, loaded(given, *region, rule)));
                    assert(all_loaded(goal.take(i + 1), *region, rule) is None);
                }
                return None;
            },
        }
    }
    assert(goal.take(all.len() as int) =~= goal);
    Some(Ok(loaded_contents))
}

/// return a copy of this content that is the same except that any Layers and Graticules are
/// resolved into groups of Paths
pub fn load_content<F, L, M>(
    content: Content,
    outer_region: &Option<Rect>,
    ruler: &Ruler<F, L, M>,
) -> (r: Result<Content, Failure>) where
    F: Fn(Number, Number) -> i32,
    L: Fn(Number, Number) -> i32,
    M: Fn(i32, Number) -> Number,

    requires
        can_rule(*ruler),
        forall|rule: Rule| (#[trigger] loaded(content@, *outer_region, rule)) is Some,
    ensures
        forall|rule: Rule| #[trigger]
            rules(*ruler, rule) ==> outcome_view(Some(r)) == loaded(content@, *outer_region, rule),
        forall|rule: Rule| went(Some(r), #[trigger] loaded(content@, *outer_region, rule)),
{
    let r = try_load_content(content, outer_region, ruler);
    proof {
        let rule: Rule = arbitrary();
        assert(went(r, loaded(content@, *outer_region, rule)));
    }
    r.unwrap()
}

/// whether there is nothing left to load in a piece of content
pub open spec fn is_loaded(content: ContentView) -> bool
    decreases content,
{
    match content {
        ContentView::Layer { .. } => false,
        ContentView::Graticule { .. } => false,
        ContentView::Marker { detail, filename, file, .. } => detail is Some && filename is None
            && file is None,
        ContentView::Group { contents, .. } => are_loaded(contents),
        ContentView::ClipPath { content, .. } => is_loaded(*content),
        _ => true,
    }
}

/// whether there is nothing left to load in any of the pieces of content
pub open spec fn are_loaded(contents: Seq<ContentView>) -> bool
    decreases contents,
{
    contents.len() > 0 ==> are_loaded(contents.drop_last()) && is_loaded(contents.last())
}

proof fn lemma_are_loaded(contents: Seq<ContentView>)
    requires
        forall|i: int| 0 <= i < contents.len() ==> is_loaded(#[trigger] contents[i]),
    ensures
        are_loaded(contents),
    decreases contents.len(),
{
    if contents.len() > 0 {
        let rest = contents.drop_last();
        assert forall|i: int| 0 <= i < rest.len() implies is_loaded(#[trigger] rest[i]) by {
            assert(rest[i] == contents[i]);
        }
        lemma_are_loaded(rest);
    }
}

/// all that a layer makes of its shapes is loaded
proof fn lemma_shown_is_loaded(
    layer: LayerView,
    region: Rect,
    marker: Option<(Seq<char>, Number)>,
    shapes: Seq<ShapeRecordView>,
)
    ensures
        all_shown(layer, region, marker, shapes) matches Some(Ok(contents)) ==> are_loaded(
            contents,
        ),
    decreases shapes.len(),
{
    if shapes.len() > 0 {
        lemma_shown_is_loaded(layer, region, marker, shapes.drop_last());
        if let Some(Ok(contents)) = all_shown(layer, region, marker, shapes.drop_last()) {
            if let Some(Ok(Some(content))) = shown(layer, region, marker, shapes.last()) {
                assert(is_loaded(content)) by {
                    if let ContentView::Group { contents: both, .. } = content {
                        lemma_are_loaded(both);
                    }
                }
                assert(contents.push(content).drop_last() =~= contents);
            }
        }
    }
}

/// once content has been loaded, there are no Layers or Graticules in it anymore, and every Marker
/// has its detail
pub proof fn law_nothing_is_left_to_load(
    content: ContentView,
    outer_region: Option<Rect>,
    rule: Rule,
)
    ensures
        loaded(content, outer_region, rule) matches Some(Ok(result)) ==> is_loaded(result),
    decreases content,
{
    match content {
        ContentView::Group { contents, region, .. } => {
            lemma_nothing_is_left_of_all(contents, inner_region(region, outer_region), rule);
        },
        ContentView::ClipPath { content: inner, .. } => {
            law_nothing_is_left_to_load(*inner, outer_region, rule);
        },
        ContentView::Layer { layer } => {
            if let Some(region) = outer_region {
                if let Some(Ok(marker)) = marker_data(layer) {
                    if let Some(shapefile) = layer.shapefile {
                        lemma_shown_is_loaded(layer, region, marker, shapefile.shapes);
                    }
                }
            }
        },
        ContentView::Graticule { parallel_spacing, meridian_spacing, .. } => {
            if let Some(region) = outer_region {
                let grid = Grid { region, parallel_spacing, meridian_spacing };
                lemma_are_loaded(grid_lines(grid, rule));
            }
        },
        _ => {},
    }
}

proof fn lemma_nothing_is_left_of_all(
    contents: Seq<ContentView>,
    outer_region: Option<Rect>,
    rule: Rule,
)
    ensures
        all_loaded(contents, outer_region, rule) matches Some(Ok(result)) ==> are_loaded(result),
    decreases contents,
{
    if contents.len() > 0 {
        lemma_nothing_is_left_of_all(contents.drop_last(), outer_region, rule);
        law_nothing_is_left_to_load(contents.last(), outer_region, rule);
        if let Some(Ok(done)) = all_loaded(contents.drop_last(), outer_region, rule) {
            if let Some(Ok(content)) = loaded(contents.last(), outer_region, rule) {
                assert(done.push(content).drop_last() =~= done);
            }
        }
    }
}

/// content in which there is nothing to load comes out as it went in, wherever it is
pub proof fn law_loading_again_changes_nothing(
    content: ContentView,
    outer_region: Option<Rect>,
    rule: Rule,
)
    requires
        is_loaded(content),
    ensures
        loaded(content, outer_region, rule) == Some(Ok::<_, MapError<Seq<char>>>(content)),
    decreases content,
{
    match content {
        ContentView::Group { contents, region, .. } => {
            lemma_loading_all_again(contents, inner_region(region, outer_region), rule);
        },
        ContentView::ClipPath { content: inner, .. } => {
            law_loading_again_changes_nothing(*inner, outer_region, rule);
        },
        _ => {},
    }
}

proof fn lemma_loading_all_again(
    contents: Seq<ContentView>,
    outer_region: Option<Rect>,
    rule: Rule,
)
    requires
        are_loaded(contents),
    ensures
        all_loaded(contents, outer_region, rule) == Some(
            Ok::<_, MapError<Seq<char>>>(contents),
        ),
    decreases contents,
{
    if contents.len() > 0 {
        lemma_loading_all_again(contents.drop_last(), outer_region, rule);
        law_loading_again_changes_nothing(contents.last(), outer_region, rule);
        assert(contents.drop_last().push(contents.last()) =~= contents);
    } else {
        assert(contents =~= Seq::empty());
    }
}

/// whatever content is resolved into has the class of the content
pub proof fn law_loading_keeps_the_class(
    content: ContentView,
    outer_region: Option<Rect>,
    rule: Rule,
)
    ensures
        loaded(content, outer_region, rule) matches Some(Ok(result)) ==> result.own_class()
            == content.own_class(),
{
}

/// whether a shape can be worked on, whatever the layer it is in makes of it
pub open spec fn is_workable_shape(layer: LayerView, shape: ShapeRecordView) -> bool {
    &&& layer.decimation is Some ==> are_inhabited(shape.shape.parts)
    &&& layer.case == Some(Case::Sentence) ==> (layer.label_column matches Some(column) ==> (
    lookup(shape.record, column) matches Some(FieldValue::Character(Some(text))) ==> has_initial(
        text,
    )))
}

/// whether everything in a piece of content can be worked on: files are readable to the end, the
/// lines of a path to be decimated have points in them, and where only the first letter of a
/// label is to be a capital, it is a letter of one byte
pub open spec fn is_workable(content: ContentView) -> bool
    decreases content,
{
    match content {
        ContentView::Layer { layer } => {
            &&& indentation_is_usable(layer.marker_file)
            &&& layer.shapefile matches Some(shapefile) ==> {
                &&& shapefile.complete
                &&& forall|i: int|
                    0 <= i < shapefile.shapes.len() ==> is_workable_shape(
                        layer,
                        #[trigger] shapefile.shapes[i],
                    )
            }
        },
        ContentView::Marker { file, .. } => indentation_is_usable(file),
        ContentView::Group { contents, .. } => are_workable(contents),
        ContentView::ClipPath { content, .. } => is_workable(*content),
        _ => true,
    }
}

/// whether everything in the pieces of content can be worked on
pub open spec fn are_workable(contents: Seq<ContentView>) -> bool
    decreases contents,
{
    contents.len() > 0 ==> are_workable(contents.drop_last()) && is_workable(contents.last())
}

proof fn lemma_shapes_are_workable(
    layer: LayerView,
    region: Rect,
    marker: Option<(Seq<char>, Number)>,
    shapes: Seq<ShapeRecordView>,
)
    requires
        forall|i: int| 0 <= i < shapes.len() ==> is_workable_shape(layer, #[trigger] shapes[i]),
    ensures
        all_shown(layer, region, marker, shapes) is Some,
    decreases shapes.len(),
{
    if shapes.len() > 0 {
        let rest = shapes.drop_last();
        assert forall|i: int| 0 <= i < rest.len() implies is_workable_shape(
            layer,
            #[trigger] rest[i],
        ) by {
            assert(rest[i] == shapes[i]);
        }
        lemma_shapes_are_workable(layer, region, marker, rest);
        assert(is_workable_shape(layer, shapes[shapes.len() - 1]));
    }
}

/// if everything in the content can be worked on, it is resolved into something or there is an error
pub proof fn law_workable_content_can_be_loaded(
    content: ContentView,
    outer_region: Option<Rect>,
    rule: Rule,
)
    requires
        is_workable(content),
    ensures
        loaded(content, outer_region, rule) is Some,
    decreases content,
{
    match content {
        ContentView::Group { contents, region, .. } => {
            lemma_all_can_be_loaded(contents, inner_region(region, outer_region), rule);
        },
        ContentView::ClipPath { content: inner, .. } => {
            law_workable_content_can_be_loaded(*inner, outer_region, rule);
        },
        ContentView::Layer { layer } => {
            if let Some(region) = outer_region {
                if let Some(Ok(marker)) = marker_data(layer) {
                    if let Some(shapefile) = layer.shapefile {
                        lemma_shapes_are_workable(layer, region, marker, shapefile.shapes);
                    }
                }
            }
        },
        _ => {},
    }
}

proof fn lemma_all_can_be_loaded(
    contents: Seq<ContentView>,
    outer_region: Option<Rect>,
    rule: Rule,
)
    requires
        are_workable(contents),
    ensures
        all_loaded(contents, outer_region, rule) is Some,
    decreases contents,
{
    if contents.len() > 0 {
        lemma_all_can_be_loaded(contents.drop_last(), outer_region, rule);
        law_workable_content_can_be_loaded(contents.last(), outer_region, rule);
    }
}

proof fn lemma_all_loaded_each(
    contents: Seq<ContentView>,
    outer_region: Option<Rect>,
    rule: Rule,
)
    ensures
        match all_loaded(contents, outer_region, rule) {
            Some(Ok(result)) => {
                &&& result.len() == contents.len()
                &&& forall|i: int|
                    0 <= i < contents.len() ==> loaded(
                        #[trigger] contents[i],
                        outer_region,
                        rule,
                    ) == Some(Ok::<_, MapError<Seq<char>>>(result[i]))
            },
            Some(Err(e)) => exists|i: int|
                {
                    &&& 0 <= i < contents.len()
                    &&& loaded(#[trigger] contents[i], outer_region, rule) == Some(
                        Err::<ContentView, _>(e),
                    )
                    &&& forall|j: int|
                        0 <= j < i ==> (loaded(#[trigger] contents[j], outer_region, rule)
                            matches Some(Ok(_)))
                },
            None => exists|i: int|
                0 <= i < contents.len() && loaded(#[trigger] contents[i], outer_region, rule)
                    is None,
        },
    decreases contents.len(),
{
    if contents.len() > 0 {
        let rest = contents.drop_last();
        let n = rest.len() as int;
        lemma_all_loaded_each(rest, outer_region, rule);
        assert forall|i: int| 0 <= i < n implies #[trigger] contents[i] == rest[i] by {}
        assert(contents[n] == contents.last());
        match all_loaded(rest, outer_region, rule) {
            Some(Ok(_)) => {
                assert forall|j: int| 0 <= j < n implies (loaded(
                    #[trigger] contents[j],
                    outer_region,
                    rule,
                ) matches Some(Ok(_))) by {
                    assert(rest[j] == contents[j]);
                }
            },
            Some(Err(e)) => {
                let i = choose|i: int|
                    {
                        &&& 0 <= i < rest.len()
                        &&& loaded(#[trigger] rest[i], outer_region, rule) == Some(
                            Err::<ContentView, _>(e),
                        )
                        &&& forall|j: int|
                            0 <= j < i ==> (loaded(#[trigger] rest[j], outer_region, rule)
                                matches Some(Ok(_)))
                    };
                assert(contents[i] == rest[i]);
                assert forall|j: int| 0 <= j < i implies (loaded(
                    #[trigger] contents[j],
                    outer_region,
                    rule,
                ) matches Some(Ok(_))) by {
                    assert(rest[j] == contents[j]);
                }
            },
            None => {
                let i = choose|i: int|
                    0 <= i < rest.len() && loaded(#[trigger] rest[i], outer_region, rule) is None;
                assert(contents[i] == rest[i]);
            },
        }
    }
}

/// each thing in a group is loaded as it would be on its own, in the group's own region or else the
/// one around it.  nothing else about the group changes, and the first thing that is wrong decides
/// what is wrong with it.
pub proof fn law_groups_are_loaded_thing_by_thing(
    group: ContentView,
    outer_region: Option<Rect>,
    rule: Rule,
)
    requires
        group is Group,
    ensures
        ({
            let contents = group->contents;
            let region = if group->region is Some {
                group->region
            } else {
                outer_region
            };
            match loaded(group, outer_region, rule) {
                Some(Ok(result)) => {
                    &&& result is Group
                    &&& result->Group_class == group->Group_class
                    &&& result->bounding_box == group->bounding_box
                    &&& result->region == group->region
                    &&& result->transform == group->transform
                    &&& result->clip == group->clip
                    &&& result->frame == group->frame
                    &&& result->contents.len() == contents.len()
                    &&& forall|i: int|
                        0 <= i < contents.len() ==> loaded(
                            #[trigger] contents[i],
                            region,
                            rule,
                        ) == Some(Ok::<_, MapError<Seq<char>>>(result->contents[i]))
                },
                Some(Err(e)) => exists|i: int|
                    {
                        &&& 0 <= i < contents.len()
                        &&& loaded(#[trigger] contents[i], region, rule) == Some(
                            Err::<ContentView, _>(e),
                        )
                        &&& forall|j: int|
                            0 <= j < i ==> (loaded(#[trigger] contents[j], region, rule)
                                matches Some(Ok(_)))
                    },
                None => exists|i: int|
                    0 <= i < contents.len() && loaded(#[trigger] contents[i], region, rule) is None,
            }
        }),
{
    lemma_all_loaded_each(group->contents, inner_region(group->region, outer_region), rule);
}

/// a clip path is loaded just as what is in it
pub proof fn law_clip_paths_are_loaded_as_their_content(
    content: ContentView,
    id: Seq<char>,
    outer_region: Option<Rect>,
    rule: Rule,
)
    ensures
        ({
            let wrapped = ContentView::ClipPath { content: Box::new(content), id };
            match loaded(content, outer_region, rule) {
                Some(Ok(result)) => loaded(wrapped, outer_region, rule) == Some(
                    Ok::<_, MapError<Seq<char>>>(
                        ContentView::ClipPath { content: Box::new(result), id },
                    ),
                ),
                other => loaded(wrapped, outer_region, rule) == other,
            }
        }),
{
}

/// a graticule becomes the lines of its grid over the region, in a group that changes nothing about
/// them and has the graticule's class.  neither a graticule nor a layer can do without a region.
pub proof fn law_graticules_become_their_grid(
    parallel_spacing: Number,
    meridian_spacing: Number,
    class: Option<Seq<char>>,
    region: Rect,
    layer: LayerView,
    rule: Rule,
)
    ensures
        ({
            let graticule = ContentView::Graticule { parallel_spacing, meridian_spacing, class };
            let no_region = Some(Err::<ContentView, _>(MapError::<Seq<char>>::NoRegion));
            &&& loaded(graticule, Some(region), rule) matches Some(Ok(group)) && {
                &&& group is Group
                &&& group->contents == grid_lines(
                    Grid { region, parallel_spacing, meridian_spacing },
                    rule,
                )
                &&& group->Group_class == class
                &&& group->bounding_box is None
                &&& group->region is None
                &&& group->transform is None
                &&& group->clip == Some(false)
                &&& group->frame == Some(false)
            }
            &&& loaded(graticule, None, rule) == no_region
            &&& loaded(ContentView::Layer { layer }, None, rule) == no_region
            &&& loaded(ContentView::Layer { layer }, Some(region), rule) == loaded_layer(
                layer,
                region,
            )
        }),
{
}

/// a marker has a detail or a file, and not both.  what it is given as its detail is its detail, and
/// otherwise what its file holds.  nothing else about it changes.
pub proof fn law_markers_have_one_detail(
    marker: ContentView,
    outer_region: Option<Rect>,
    rule: Rule,
)
    requires
        marker is Marker,
    ensures
        ({
            let outcome = loaded(marker, outer_region, rule);
            &&& marker->detail is Some && marker->filename is Some ==> outcome == Some(
                Err::<ContentView, _>(MapError::<Seq<char>>::DetailAndFilename),
            )
            &&& marker->detail is None && marker->filename is None ==> outcome == Some(
                Err::<ContentView, _>(MapError::<Seq<char>>::NeitherDetailNorFilename),
            )
            &&& outcome matches Some(Ok(result)) ==> {
                &&& result is Marker
                &&& result->filename is None
                &&& result->file is None
                &&& result->Marker_location == marker->Marker_location
                &&& result->size == marker->size
                &&& result->bearing == marker->bearing
                &&& result->Marker_class == marker->Marker_class
                &&& marker->detail is Some ==> result->detail == marker->detail
                &&& marker->detail is None ==> result->detail is Some && marker_detail(
                    marker->filename->0,
                    marker->file,
                ) == Ok::<_, MapError<Seq<char>>>(result->detail->0)
            }
            &&& marker->detail is Some && marker->filename is None ==> (outcome matches Some(
                Ok(_),
            ))
        }),
{
}

/// lines, rectangles, paths, and labels are loaded from the start
pub proof fn law_other_content_is_loaded_already(
    content: ContentView,
    outer_region: Option<Rect>,
    rule: Rule,
)
    ensures
        content is Line || content is Rectangle || content is Path || content is Label ==> loaded(
            content,
            outer_region,
            rule,
        ) == Some(Ok::<_, MapError<Seq<char>>>(content)),
{
}

} // verus!
