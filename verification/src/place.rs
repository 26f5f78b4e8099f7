//! Putting each piece of content in its place on the map.

use crate::content::{
    content_count, contents_count, contents_view, lemma_contents_view, Content, ContentView,
};
use crate::errors::{Failure, MapError};
use crate::geometry::{
    between, coerce_in_box, is_proper, law_coerced_points_are_inside, nearest_in, parts_view,
    takes_off, upright_box, Inset, Projection, Rect, SerializablePoint, Transform,
};
use crate::load::{are_loaded, is_loaded, went};
use crate::number::Number;
use vstd::prelude::*;

verus! {

/// the arithmetic that it takes to put things on the map
pub struct Arithmetic<P, Q, R, S, T> {
    /// put a point on the map
    pub point: P,
    /// put a polyline on the map, with as many points as it takes to keep it smooth
    pub curve: Q,
    /// put a box on the map, under a projection that will do for boxes
    pub boks: R,
    /// find the bearing on the map of what has this bearing at this point
    pub bearing: S,
    /// take some space off along each edge of a box, to keep labels away from them
    pub shrink: T,
}

/// what the arithmetic comes to
pub struct Effect {
    pub point: spec_fn(Projection, SerializablePoint) -> SerializablePoint,
    pub curve: spec_fn(Projection, Seq<SerializablePoint>) -> Seq<SerializablePoint>,
    pub boks: spec_fn(Projection, Rect) -> Rect,
    pub bearing: spec_fn(Projection, SerializablePoint, Number) -> Number,
    pub inset: Inset,
}

/// whether the arithmetic can be done whatever there is to put on the map
pub open spec fn is_total<P, Q, R, S, T>(arithmetic: Arithmetic<P, Q, R, S, T>) -> bool where
    P: Fn(&Projection, SerializablePoint) -> SerializablePoint,
    Q: Fn(&Projection, &Vec<SerializablePoint>) -> Vec<SerializablePoint>,
    R: Fn(&Projection, Rect) -> Rect,
    S: Fn(&Projection, SerializablePoint, Number) -> Number,
    T: Fn(Rect) -> Rect,
 {
    &&& forall|t: &Projection, p: SerializablePoint| #[trigger]
        call_requires(arithmetic.point, (t, p))
    &&& forall|t: &Projection, p: &Vec<SerializablePoint>| #[trigger]
        call_requires(arithmetic.curve, (t, p))
    &&& forall|t: &Projection, b: Rect| #[trigger]
        call_requires(arithmetic.boks, (t, b)) <== t.objection_to_boxes() is None
    &&& forall|t: &Projection, p: SerializablePoint, n: Number| #[trigger]
        call_requires(arithmetic.bearing, (t, p, n))
    &&& forall|b: Rect| #[trigger] call_requires(arithmetic.shrink, (b,))
}

/// whether this is what the arithmetic comes to
pub open spec fn comes_to<P, Q, R, S, T>(
    arithmetic: Arithmetic<P, Q, R, S, T>,
    effect: Effect,
) -> bool where
    P: Fn(&Projection, SerializablePoint) -> SerializablePoint,
    Q: Fn(&Projection, &Vec<SerializablePoint>) -> Vec<SerializablePoint>,
    R: Fn(&Projection, Rect) -> Rect,
    S: Fn(&Projection, SerializablePoint, Number) -> Number,
    T: Fn(Rect) -> Rect,
 {
    &&& forall|t: &Projection, p: SerializablePoint, r: SerializablePoint| #[trigger]
        call_ensures(arithmetic.point, (t, p), r) ==> r == (effect.point)(*t, p)
    &&& forall|t: &Projection, p: &Vec<SerializablePoint>, r: Vec<SerializablePoint>| #[trigger]
        call_ensures(arithmetic.curve, (t, p), r) ==> r@ == (effect.curve)(*t, p@)
    &&& forall|t: &Projection, b: Rect, r: Rect| #[trigger]
        call_ensures(arithmetic.boks, (t, b), r) ==> r == (effect.boks)(*t, b)
    &&& forall|t: &Projection, p: SerializablePoint, n: Number, r: Number| #[trigger]
        call_ensures(arithmetic.bearing, (t, p, n), r) ==> r == (effect.bearing)(*t, p, n)
    &&& takes_off(arithmetic.shrink, effect.inset)
}

/// the transform for what is inside a group: the one that is stated explicitly, or else the one that
/// fits its region to its bounding box, or else that of the upper level
pub open spec fn inner_projection(
    transform: Option<Transform>,
    bounding_box: Option<Rect>,
    region: Option<Rect>,
    outer: Option<Projection>,
) -> Option<Projection> {
    match (transform, bounding_box, region) {
        (Some(transform), _, _) => Some(Projection::Stated(transform)),
        (None, Some(bounding_box), Some(region)) => Some(
            Projection::Fitted { region, bounding_box },
        ),
        _ => outer,
    }
}

/// the innermost box around what is inside a group
pub open spec fn inner_box(bounding_box: Option<Rect>, outer: Option<Rect>) -> Option<Rect> {
    if bounding_box is Some {
        bounding_box
    } else {
        outer
    }
}

/// where a label goes: on the map, and inside the box around it
pub open spec fn label_place(
    location: SerializablePoint,
    projection: Projection,
    bounding_box: Option<Rect>,
    effect: Effect,
) -> SerializablePoint {
    let place = (effect.point)(projection, location);
    match bounding_box {
        Some(boks) => nearest_in(place, (effect.inset)(upright_box(boks))),
        None => place,
    }
}

/// an element in its place on the map
pub open spec fn placed_element(
    element: ContentView,
    projection: Projection,
    bounding_box: Option<Rect>,
    effect: Effect,
) -> ContentView {
    match element {
        ContentView::Line { start, end, class } => ContentView::Line {
            start: (effect.point)(projection, start),
            end: (effect.point)(projection, end),
            class,
        },
        ContentView::Rectangle { coordinates, class } => ContentView::Rectangle {
            coordinates: (effect.boks)(projection, coordinates),
            class,
        },
        ContentView::Path { parts, closed, self_clip, decimation, class } => ContentView::Path {
            parts: parts.map_values(
                |part: Seq<SerializablePoint>| (effect.curve)(projection, part),
            ),
            closed,
            self_clip,
            decimation,
            class,
        },
        ContentView::Marker { detail, filename, file, location, size, bearing, class } =>
            ContentView::Marker {
            detail,
            filename,
            file,
            location: (effect.point)(projection, location),
            size,
            bearing: match bearing {
                Some(bearing) => Some((effect.bearing)(projection, location, bearing)),
                None => None,
            },
            class,
        },
        ContentView::Label { text, location, class } => ContentView::Label {
            text,
            location: label_place(location, projection, bounding_box, effect),
            class,
        },
        other => other,
    }
}

/// a piece of content in its place on the map
pub open spec fn placed(
    content: ContentView,
    projection: Option<Projection>,
    bounding_box: Option<Rect>,
    effect: Effect,
) -> Result<ContentView, MapError<Seq<char>>>
    decreases content,
{
    match content {
        ContentView::Group {
            contents,
            class,
            bounding_box: sub_box,
            region,
            transform,
            clip,
            frame,
        } => match all_placed(
            contents,
            inner_projection(transform, sub_box, region, projection),
            inner_box(sub_box, bounding_box),
            effect,
        ) {
            Ok(contents) => Ok(
                ContentView::Group {
                    contents,
                    class,
                    bounding_box: sub_box,
                    region,
                    transform: None,
                    clip,
                    frame,
                },
            ),
            Err(e) => Err(e),
        },
        ContentView::ClipPath { content, id } => match placed(
            *content,
            projection,
            bounding_box,
            effect,
        ) {
            Ok(content) => Ok(ContentView::ClipPath { content: Box::new(content), id }),
            Err(e) => Err(e),
        },
        ContentView::Layer { .. } => Err(MapError::LayerNotLoaded),
        ContentView::Graticule { .. } => Err(MapError::GraticuleNotLoaded),
        _ => match projection {
            None => Err(MapError::NoRegion),
            Some(projection) => if content is Rectangle && projection.objection_to_boxes() is Some {
                Err(projection.objection_to_boxes()->0)
            } else {
                Ok(placed_element(content, projection, bounding_box, effect))
            },
        },
    }
}

/// the pieces of content in their places on the map
pub open spec fn all_placed(
    contents: Seq<ContentView>,
    projection: Option<Projection>,
    bounding_box: Option<Rect>,
    effect: Effect,
) -> Result<Seq<ContentView>, MapError<Seq<char>>>
    decreases contents,
{
    if contents.len() == 0 {
        Ok(Seq::empty())
    } else {
        match all_placed(contents.drop_last(), projection, bounding_box, effect) {
            Ok(done) => match placed(contents.last(), projection, bounding_box, effect) {
                Ok(content) => Ok(done.push(content)),
                Err(e) => Err(e),
            },
            Err(e) => Err(e),
        }
    }
}

proof fn lemma_first_unplaceable(
    contents: Seq<ContentView>,
    projection: Option<Projection>,
    bounding_box: Option<Rect>,
    effect: Effect,
    n: int,
)
    requires
        0 <= n <= contents.len(),
        all_placed(contents.take(n), projection, bounding_box, effect) is Err,
    ensures
        all_placed(contents, projection, bounding_box, effect) == all_placed(
            contents.take(n),
            projection,
            bounding_box,
            effect,
        ),
    decreases contents.len(),
{
    if n < contents.len() {
        assert(contents.drop_last().take(n) =~= contents.take(n));
        lemma_first_unplaceable(contents.drop_last(), projection, bounding_box, effect, n);
    } else {
        assert(contents.take(n) =~= contents);
    }
}

/// what a result holds
pub open spec fn placing_view(r: Result<Content, Failure>) -> Result<
    ContentView,
    MapError<Seq<char>>,
> {
    match r {
        Ok(content) => Ok(content@),
        Err(e) => Err(e@),
    }
}

/// put the polylines of a path on the map
fn transform_parts<P, Q, R, S, T>(
    parts: &Vec<Vec<SerializablePoint>>,
    projection: &Projection,
    arithmetic: &Arithmetic<P, Q, R, S, T>,
) -> (r: Vec<Vec<SerializablePoint>>) where
    P: Fn(&Projection, SerializablePoint) -> SerializablePoint,
    Q: Fn(&Projection, &Vec<SerializablePoint>) -> Vec<SerializablePoint>,
    R: Fn(&Projection, Rect) -> Rect,
    S: Fn(&Projection, SerializablePoint, Number) -> Number,
    T: Fn(Rect) -> Rect,

    requires
        is_total(*arithmetic),
    ensures
        forall|effect: Effect| #[trigger]
            comes_to(*arithmetic, effect) ==> parts_view(r@) == parts_view(parts@).map_values(
                |part: Seq<SerializablePoint>| (effect.curve)(*projection, part),
            ),
{
    let mut transformed: Vec<Vec<SerializablePoint>> = Vec::new();
    for i in 0..parts.len()
        invariant
            is_total(*arithmetic),
            transformed@.len() == i,
            forall|effect: Effect, j: int|
                #![trigger comes_to(*arithmetic, effect), transformed@[j]]
                comes_to(*arithmetic, effect) && 0 <= j < i ==> transformed@[j]@ == (effect.curve)(
                    *projection,
                    parts@[j]@,
                ),
    {
        let curve = &arithmetic.curve;
        transformed.push(curve(projection, &parts[i]));
    }
    assert forall|effect: Effect| #[trigger] comes_to(*arithmetic, effect) implies parts_view(
        transformed@,
    ) == parts_view(parts@).map_values(
        |part: Seq<SerializablePoint>| (effect.curve)(*projection, part),
    ) by {
        assert(parts_view(transformed@) =~= parts_view(parts@).map_values(
            |part: Seq<SerializablePoint>| (effect.curve)(*projection, part),
        ));
    }
    transformed
}

/// put an element on the map
fn transform_element<P, Q, R, S, T>(
    element: Content,
    projection: &Projection,
    bounding_box: &Option<Rect>,
    arithmetic: &Arithmetic<P, Q, R, S, T>,
) -> (r: Content) where
    P: Fn(&Projection, SerializablePoint) -> SerializablePoint,
    Q: Fn(&Projection, &Vec<SerializablePoint>) -> Vec<SerializablePoint>,
    R: Fn(&Projection, Rect) -> Rect,
    S: Fn(&Projection, SerializablePoint, Number) -> Number,
    T: Fn(Rect) -> Rect,

    requires
        is_total(*arithmetic),
        element@ is Rectangle ==> projection.objection_to_boxes() is None,
    ensures
        forall|effect: Effect| #[trigger]
            comes_to(*arithmetic, effect) ==> r@ == placed_element(
                element@,
                *projection,
                *bounding_box,
                effect,
            ),
{
    let point = &arithmetic.point;
    match element {
        Content::Line { start, end, class } => Content::Line {
            start: point(projection, start),
            end: point(projection, end),
            class,
        },
        Content::Rectangle { coordinates, class } => {
            let boks = &arithmetic.boks;
            Content::Rectangle { coordinates: boks(projection, coordinates), class }
        },
        Content::Path { parts, closed, self_clip, decimation, class } => Content::Path {
            parts: transform_parts(&parts, projection, arithmetic),
            closed,
            self_clip,
            decimation,
            class,
        },
        Content::Marker { detail, filename, file, location, size, bearing, class } => {
            let turn = &arithmetic.bearing;
            Content::Marker {
                detail,
                filename,
                file,
                location: point(projection, location),
                size,
                bearing: match bearing {
                    Some(bearing) => Some(turn(projection, location, bearing)),
                    None => None,
                },
                class,
            }
        },
        Content::Label { text, location, class } => {
            let location = point(projection, location);
            let location = match bounding_box {
                Some(boks) => coerce_in_box(&location, boks, &arithmetic.shrink),
                None => location,
            };
            Content::Label { text, location, class }
        },
        other => other,
    }
}

/// apply all necessary coordinate transforms to the points in this content.  all geographic data
/// come out in SVG coordinates rather than in shapefile coordinates.
pub fn transform_content<P, Q, R, S, T>(
    content: Content,
    outer_projection: &Option<Projection>,
    outer_bounding_box: &Option<Rect>,
    arithmetic: &Arithmetic<P, Q, R, S, T>,
) -> (r: Result<Content, Failure>) where
    P: Fn(&Projection, SerializablePoint) -> SerializablePoint,
    Q: Fn(&Projection, &Vec<SerializablePoint>) -> Vec<SerializablePoint>,
    R: Fn(&Projection, Rect) -> Rect,
    S: Fn(&Projection, SerializablePoint, Number) -> Number,
    T: Fn(Rect) -> Rect,

    requires
        is_total(*arithmetic),
    ensures
        forall|effect: Effect| #[trigger]
            comes_to(*arithmetic, effect) ==> placing_view(r) == placed(
                content@,
                *outer_projection,
                *outer_bounding_box,
                effect,
            ),
        forall|effect: Effect|
            went(
                Some(r),
                Some(#[trigger] placed(content@, *outer_projection, *outer_bounding_box, effect)),
            ),
    decreases content,
{
    match content {
        Content::Group { contents, class, bounding_box, region, transform, clip, frame } => {
            // establish the transform
            let own = match transform {
                // either from it being stated explicitly
                Some(transform) => Some(Projection::Stated(transform)),
                None => match (bounding_box, region) {
                    // or by inferring it from bounding_box and region
                    (Some(bounding_box), Some(region)) => Some(
                        Projection::Fitted { region, bounding_box },
                    ),
                    // or by inheriting it from an upper level
                    _ => None,
                },
            };
            let projection = if own.is_some() {
                &own
            } else {
                outer_projection
            };
            let innermost_bounding_box = match &bounding_box {
                Some(_) => &bounding_box,
                None => outer_bounding_box,
            };
            let ghost goal = contents_view(contents@);
            let r = transform_contents(contents, projection, innermost_bounding_box, arithmetic);
            assert forall|effect: Effect|
                went(
                    Some(r),
                    Some(
                        #[trigger] placed(
                            content@,
                            *outer_projection,
                            *outer_bounding_box,
                            effect,
                        ),
                    ),
                ) by {
                assert(went(
                    Some(r),
                    Some(all_placed(goal, *projection, *innermost_bounding_box, effect)),
                ));
            }
            match r {
                Ok(contents) => Ok(
                    Content::Group {
                        contents,
                        class,
                        bounding_box,
                        region,
                        transform: None,
                        clip,
                        frame,
                    },
                ),
                Err(e) => Err(e),
            }
        },
        Content::ClipPath { content: inner, id } => {
            let ghost given = (*inner)@;
            let r = transform_content(*inner, outer_projection, outer_bounding_box, arithmetic);
            assert forall|effect: Effect|
                went(
                    Some(r),
                    Some(
                        #[trigger] placed(
                            content@,
                            *outer_projection,
                            *outer_bounding_box,
                            effect,
                        ),
                    ),
                ) by {
                assert(went(
                    Some(r),
                    Some(placed(given, *outer_projection, *outer_bounding_box, effect)),
                ));
            }
            match r {
                Ok(content) => Ok(Content::ClipPath { content: Box::new(content), id }),
                Err(e) => Err(e),
            }
        },
        Content::Layer { .. } => Err(MapError::LayerNotLoaded),
        Content::Graticule { .. } => Err(MapError::GraticuleNotLoaded),
        other => {
            let projection = match outer_projection {
                Some(projection) => projection,
                None => {
                    return Err(MapError::NoRegion);
                },
            };
            match &other {
                Content::Rectangle { .. } => match projection.check_box() {
                    Ok(_) => {},
                    Err(e) => {
                        return Err(e);
                    },
                },
                _ => {},
            }
            Ok(transform_element(other, projection, outer_bounding_box, arithmetic))
        },
    }
}

/// apply the transforms to one piece of content after another
fn transform_contents<P, Q, R, S, T>(
    contents: Vec<Content>,
    projection: &Option<Projection>,
    bounding_box: &Option<Rect>,
    arithmetic: &Arithmetic<P, Q, R, S, T>,
) -> (r: Result<Vec<Content>, Failure>) where
    P: Fn(&Projection, SerializablePoint) -> SerializablePoint,
    Q: Fn(&Projection, &Vec<SerializablePoint>) -> Vec<SerializablePoint>,
    R: Fn(&Projection, Rect) -> Rect,
    S: Fn(&Projection, SerializablePoint, Number) -> Number,
    T: Fn(Rect) -> Rect,

    requires
        is_total(*arithmetic),
    ensures
        r matches Ok(result) ==> forall|effect: Effect| #[trigger]
            comes_to(*arithmetic, effect) ==> all_placed(
                contents_view(contents@),
                *projection,
                *bounding_box,
                effect,
            ) == Ok::<_, MapError<Seq<char>>>(contents_view(result@)),
        forall|effect: Effect|
            went(
                Some(r),
                Some(
                    #[trigger] all_placed(
                        contents_view(contents@),
                        *projection,
                        *bounding_box,
                        effect,
                    ),
                ),
            ),
    decreases contents,
{
    let ghost all = contents@;
    let ghost goal = contents_view(all);
    let mut transformed_contents: Vec<Content> = Vec::new();
    proof {
        lemma_contents_view(all);
        assert(goal.take(0) =~= Seq::empty());
    }
    for content in it: contents
        invariant
            it.seq() == all,
            all == contents@,
            decreases_to!(contents => all),
            goal == contents_view(all),
            goal.len() == all.len(),
            forall|i: int| 0 <= i < all.len() ==> #[trigger] goal[i] == all[i]@,
            is_total(*arithmetic),
            forall|effect: Effect| #[trigger]
                comes_to(*arithmetic, effect) ==> all_placed(
                    goal.take(it.index()),
                    *projection,
                    *bounding_box,
                    effect,
                ) == Ok::<_, MapError<Seq<char>>>(contents_view(transformed_contents@)),
            forall|effect: Effect|
                (#[trigger] all_placed(goal.take(it.index()), *projection, *bounding_box, effect))
                    is Ok,
    {
        let ghost i = it.index();
        let ghost given = content@;
        proof {
            assert(goal.take(i + 1).drop_last() =~= goal.take(i));
            assert(goal.take(i + 1).last() == content@);
        }
        let r = transform_content(content, projection, bounding_box, arithmetic);
        assert forall|effect: Effect|
            went(
                Some(r),
                Some(#[trigger] all_placed(goal.take(i + 1), *projection, *bounding_box, effect)),
            ) by {
            assert(all_placed(goal.take(i), *projection, *bounding_box, effect) is Ok);
            assert(went(Some(r), Some(placed(given, *projection, *bounding_box, effect))));
        }
        match r {
            Ok(content) => {
                let ghost before = transformed_contents@;
                transformed_contents.push(content);
                assert(transformed_contents@.drop_last() =~= before);
            },
            Err(e) => {
                assert forall|effect: Effect| #[trigger]
                    all_placed(goal, *projection, *bounding_box, effect) == Err::<
                    Seq<ContentView>,
                    _,
                >(e@) by {
                    assert(went(
                        Some(r),
                        Some(all_placed(goal.take(i + 1), *projection, *bounding_box, effect)),
                    ));
                    lemma_first_unplaceable(goal, *projection, *bounding_box, effect, i + 1);
                }
                return Err(e);
            },
        }
    }
    assert(goal.take(all.len() as int) =~= goal);
    Ok(transformed_contents)
}

/// find the box and the transform for the whole map
pub fn establish_top_level(
    bounding_box: &Option<Rect>,
    region: &Option<Rect>,
    transform: Option<Transform>,
) -> (r: Result<(Rect, Option<Projection>), Failure>)
    ensures
        match r {
            Ok((boks, projection)) => *bounding_box == Some(boks) && projection
                == inner_projection(transform, *bounding_box, *region, None),
            Err(e) => *bounding_box is None && e@ == MapError::<Seq<char>>::NoTopLevelBox,
        },
{
    match bounding_box {
        None => Err(MapError::NoTopLevelBox),
        Some(boks) => {
            let projection = match transform {
                Some(transform) => Some(Projection::Stated(transform)),
                None => match region {
                    Some(region) => Some(
                        Projection::Fitted { region: *region, bounding_box: *boks },
                    ),
                    None => None,
                },
            };
            Ok((*boks, projection))
        },
    }
}

/// once everything has been loaded, all that can be wrong is that there is no transform, or that a
/// rectangle is under one that won't do for it
pub proof fn law_loaded_content_can_be_placed(
    content: ContentView,
    projection: Option<Projection>,
    bounding_box: Option<Rect>,
    effect: Effect,
)
    requires
        is_loaded(content),
    ensures
        placed(content, projection, bounding_box, effect) matches Err(e) ==> e is NoRegion || e
            is RotatedRectangle || e is ObliqueRectangle,
        projection is Some ==> (placed(content, projection, bounding_box, effect) matches Err(e)
            ==> !(e is NoRegion)),
    decreases content,
{
    match content {
        ContentView::Group { contents, bounding_box: sub_box, region, transform, .. } => {
            lemma_all_can_be_placed(
                contents,
                inner_projection(transform, sub_box, region, projection),
                inner_box(sub_box, bounding_box),
                effect,
            );
        },
        ContentView::ClipPath { content: inner, .. } => {
            law_loaded_content_can_be_placed(*inner, projection, bounding_box, effect);
        },
        _ => {},
    }
}

proof fn lemma_all_can_be_placed(
    contents: Seq<ContentView>,
    projection: Option<Projection>,
    bounding_box: Option<Rect>,
    effect: Effect,
)
    requires
        are_loaded(contents),
    ensures
        all_placed(contents, projection, bounding_box, effect) matches Err(e) ==> e is NoRegion
            || e is RotatedRectangle || e is ObliqueRectangle,
        projection is Some ==> (all_placed(contents, projection, bounding_box, effect) matches Err(
            e,
        ) ==> !(e is NoRegion)),
    decreases contents,
{
    if contents.len() > 0 {
        lemma_all_can_be_placed(contents.drop_last(), projection, bounding_box, effect);
        law_loaded_content_can_be_placed(contents.last(), projection, bounding_box, effect);
    }
}

/// if a group states its own transform, or both its region and its bounding box, then that of the
/// upper level makes no difference to what is in it
pub proof fn law_the_innermost_transform_counts(
    group: ContentView,
    one: Option<Projection>,
    other: Option<Projection>,
    bounding_box: Option<Rect>,
    effect: Effect,
)
    requires
        group is Group,
        group->transform is Some || (group->bounding_box is Some && group->region is Some),
    ensures
        placed(group, one, bounding_box, effect) == placed(group, other, bounding_box, effect),
{
}

/// everything that was in the content is on the map, with its class, and what has been loaded stays
/// loaded
pub proof fn law_nothing_is_lost_in_placing(
    content: ContentView,
    projection: Option<Projection>,
    bounding_box: Option<Rect>,
    effect: Effect,
)
    ensures
        placed(content, projection, bounding_box, effect) matches Ok(result) ==> {
            &&& content_count(result) == content_count(content)
            &&& result.own_class() == content.own_class()
            &&& is_loaded(content) ==> is_loaded(result)
        },
    decreases content,
{
    match content {
        ContentView::Group { contents, bounding_box: sub_box, region, transform, .. } => {
            lemma_nothing_of_all_is_lost(
                contents,
                inner_projection(transform, sub_box, region, projection),
                inner_box(sub_box, bounding_box),
                effect,
            );
        },
        ContentView::ClipPath { content: inner, .. } => {
            law_nothing_is_lost_in_placing(*inner, projection, bounding_box, effect);
        },
        _ => {},
    }
}

proof fn lemma_nothing_of_all_is_lost(
    contents: Seq<ContentView>,
    projection: Option<Projection>,
    bounding_box: Option<Rect>,
    effect: Effect,
)
    ensures
        all_placed(contents, projection, bounding_box, effect) matches Ok(result) ==> {
            &&& contents_count(result) == contents_count(contents)
            &&& are_loaded(contents) ==> are_loaded(result)
        },
    decreases contents,
{
    if contents.len() > 0 {
        lemma_nothing_of_all_is_lost(contents.drop_last(), projection, bounding_box, effect);
        law_nothing_is_lost_in_placing(contents.last(), projection, bounding_box, effect);
        if let Ok(done) = all_placed(contents.drop_last(), projection, bounding_box, effect) {
            if let Ok(content) = placed(contents.last(), projection, bounding_box, effect) {
                assert(done.push(content).drop_last() =~= done);
            }
        }
    }
}

/// a label ends up inside the box around it and away from its edges, if there is room
pub proof fn law_labels_stay_in_their_box(
    location: SerializablePoint,
    projection: Projection,
    bounding_box: Rect,
    effect: Effect,
)
    requires
        is_proper((effect.inset)(upright_box(bounding_box))),
    ensures
        ({
            let inner = (effect.inset)(upright_box(bounding_box));
            let place = label_place(location, projection, Some(bounding_box), effect);
            between(inner.left, place.x, inner.right) && between(inner.bottom, place.y, inner.top)
        }),
{
    law_coerced_points_are_inside(
        (effect.point)(projection, location),
        (effect.inset)(upright_box(bounding_box)),
    );
}

proof fn lemma_all_placed_each(
    contents: Seq<ContentView>,
    projection: Option<Projection>,
    bounding_box: Option<Rect>,
    effect: Effect,
)
    ensures
        match all_placed(contents, projection, bounding_box, effect) {
            Ok(result) => {
                &&& result.len() == contents.len()
                &&& forall|i: int|
                    0 <= i < contents.len() ==> placed(
                        #[trigger] contents[i],
                        projection,
                        bounding_box,
                        effect,
                    ) == Ok::<_, MapError<Seq<char>>>(result[i])
            },
            Err(e) => exists|i: int|
                {
                    &&& 0 <= i < contents.len()
                    &&& placed(#[trigger] contents[i], projection, bounding_box, effect) == Err::<
                        ContentView,
                        _,
                    >(e)
                    &&& forall|j: int|
                        0 <= j < i ==> placed(
                            #[trigger] contents[j],
                            projection,
                            bounding_box,
                            effect,
                        ) is Ok
                },
        },
    decreases contents.len(),
{
    if contents.len() > 0 {
        let rest = contents.drop_last();
        let n = rest.len() as int;
        lemma_all_placed_each(rest, projection, bounding_box, effect);
        assert forall|i: int| 0 <= i < n implies #[trigger] contents[i] == rest[i] by {}
        match all_placed(rest, projection, bounding_box, effect) {
            Ok(before) => {
                if placed(contents.last(), projection, bounding_box, effect) is Err {
                    assert(contents[n] == contents.last());
                    assert forall|j: int| 0 <= j < n implies placed(
                        #[trigger] contents[j],
                        projection,
                        bounding_box,
                        effect,
                    ) is Ok by {
                        assert(rest[j] == contents[j]);
                    }
                }
            },
            Err(e) => {
                let i = choose|i: int|
                    {
                        &&& 0 <= i < rest.len()
                        &&& placed(#[trigger] rest[i], projection, bounding_box, effect) == Err::<
                            ContentView,
                            _,
                        >(e)
                        &&& forall|j: int|
                            0 <= j < i ==> placed(
                                #[trigger] rest[j],
                                projection,
                                bounding_box,
                                effect,
                            ) is Ok
                    };
                assert(contents[i] == rest[i]);
                assert forall|j: int| 0 <= j < i implies placed(
                    #[trigger] contents[j],
                    projection,
                    bounding_box,
                    effect,
                ) is Ok by {
                    assert(rest[j] == contents[j]);
                }
            },
        }
    }
}

/// each thing in a group is placed as it would be on its own: under the transform that the group
/// states, or else the one that fits its region to its box, or else the one around it; and in the
/// group's own box, or else the one around it.  nothing else about the group changes, and the first
/// thing that can't be placed decides what is wrong with it.
pub proof fn law_groups_are_placed_thing_by_thing(
    group: ContentView,
    projection: Option<Projection>,
    bounding_box: Option<Rect>,
    effect: Effect,
)
    requires
        group is Group,
    ensures
        ({
            let contents = group->contents;
            let inside = if group->transform is Some {
                Some(Projection::Stated(group->transform->0))
            } else if group->bounding_box is Some && group->region is Some {
                Some(
                    Projection::Fitted {
                        region: group->region->0,
                        bounding_box: group->bounding_box->0,
                    },
                )
            } else {
                projection
            };
            let boks = if group->bounding_box is Some {
                group->bounding_box
            } else {
                bounding_box
            };
            match placed(group, projection, bounding_box, effect) {
                Ok(result) => {
                    &&& result is Group
                    &&& result->Group_class == group->Group_class
                    &&& result->bounding_box == group->bounding_box
                    &&& result->region == group->region
                    &&& result->transform is None
                    &&& result->clip == group->clip
                    &&& result->frame == group->frame
                    &&& result->contents.len() == contents.len()
                    &&& forall|i: int|
                        0 <= i < contents.len() ==> placed(
                            #[trigger] contents[i],
                            inside,
                            boks,
                            effect,
                        ) == Ok::<_, MapError<Seq<char>>>(result->contents[i])
                },
                Err(e) => exists|i: int|
                    {
                        &&& 0 <= i < contents.len()
                        &&& placed(#[trigger] contents[i], inside, boks, effect) == Err::<
                            ContentView,
                            _,
                        >(e)
                        &&& forall|j: int|
                            0 <= j < i ==> placed(
                                #[trigger] contents[j],
                                inside,
                                boks,
                                effect,
                            ) is Ok
                    },
            }
        }),
{
    lemma_all_placed_each(
        group->contents,
        inner_projection(group->transform, group->bounding_box, group->region, projection),
        inner_box(group->bounding_box, bounding_box),
        effect,
    );
}

/// a group without a box of its own makes no difference to where labels may be: under the same
/// transform, each thing in it is placed just as it would be without the group
pub proof fn law_groups_without_a_box_change_nothing(
    contents: Seq<ContentView>,
    class: Option<Seq<char>>,
    region: Option<Rect>,
    clip: Option<bool>,
    frame: Option<bool>,
    projection: Option<Projection>,
    bounding_box: Option<Rect>,
    effect: Effect,
)
    ensures
        ({
            let group = ContentView::Group {
                contents,
                class,
                bounding_box: None,
                region,
                transform: None,
                clip,
                frame,
            };
            placed(group, projection, bounding_box, effect) matches Ok(result) ==> {
                &&& result is Group
                &&& result->contents.len() == contents.len()
                &&& forall|i: int|
                    0 <= i < contents.len() ==> Ok::<_, MapError<Seq<char>>>(
                        #[trigger] result->contents[i],
                    ) == placed(contents[i], projection, bounding_box, effect)
            }
        }),
{
    let group = ContentView::Group {
        contents,
        class,
        bounding_box: None,
        region,
        transform: None,
        clip,
        frame,
    };
    law_groups_are_placed_thing_by_thing(group, projection, bounding_box, effect);
    if let Ok(result) = placed(group, projection, bounding_box, effect) {
        assert forall|i: int| 0 <= i < contents.len() implies Ok::<_, MapError<Seq<char>>>(
            #[trigger] result->contents[i],
        ) == placed(contents[i], projection, bounding_box, effect) by {}
    }
}

/// a clip path is placed just as what is in it
pub proof fn law_clip_paths_are_placed_as_their_content(
    content: ContentView,
    id: Seq<char>,
    projection: Option<Projection>,
    bounding_box: Option<Rect>,
    effect: Effect,
)
    ensures
        ({
            let wrapped = ContentView::ClipPath { content: Box::new(content), id };
            match placed(content, projection, bounding_box, effect) {
                Ok(there) => placed(wrapped, projection, bounding_box, effect) == Ok::<
                    _,
                    MapError<Seq<char>>,
                >(ContentView::ClipPath { content: Box::new(there), id }),
                Err(e) => placed(wrapped, projection, bounding_box, effect) == Err::<
                    ContentView,
                    _,
                >(e),
            }
        }),
{
}

/// both ends of a line, the corners of a rectangle, and the location of a marker go where the
/// transform puts them, and a marker is turned by what north is turned by there.  nothing else about
/// them changes.
pub proof fn law_elements_go_where_the_transform_puts_them(
    element: ContentView,
    projection: Projection,
    bounding_box: Option<Rect>,
    effect: Effect,
)
    ensures
        ({
            let outcome = placed(element, Some(projection), bounding_box, effect);
            &&& element matches ContentView::Line { start, end, class } ==> outcome == Ok::<
                _,
                MapError<Seq<char>>,
            >(
                ContentView::Line {
                    start: (effect.point)(projection, start),
                    end: (effect.point)(projection, end),
                    class,
                },
            )
            &&& element matches ContentView::Rectangle { coordinates, class } ==> (outcome
                matches Ok(there) ==> there == ContentView::Rectangle {
                coordinates: (effect.boks)(projection, coordinates),
                class,
            })
            &&& element matches ContentView::Marker {
                detail,
                filename,
                file,
                location,
                size,
                bearing,
                class,
            } ==> outcome == Ok::<_, MapError<Seq<char>>>(
                ContentView::Marker {
                    detail,
                    filename,
                    file,
                    location: (effect.point)(projection, location),
                    size,
                    bearing: if bearing is Some {
                        Some((effect.bearing)(projection, location, bearing->0))
                    } else {
                        None
                    },
                    class,
                },
            )
        }),
{
}

/// a rectangle can be placed unless the transform turns it or is oblique
pub proof fn law_rectangles_are_not_turned(
    coordinates: Rect,
    class: Option<Seq<char>>,
    projection: Projection,
    bounding_box: Option<Rect>,
    effect: Effect,
)
    ensures
        ({
            let outcome = placed(
                ContentView::Rectangle { coordinates, class },
                Some(projection),
                bounding_box,
                effect,
            );
            match projection {
                Projection::Fitted { .. } => outcome is Ok,
                Projection::Stated(Transform::Mercator { .. }) => outcome is Ok,
                Projection::Stated(Transform::Oblique { .. }) => outcome == Err::<ContentView, _>(
                    MapError::<Seq<char>>::ObliqueRectangle,
                ),
                Projection::Stated(Transform::Affine { rotation, .. }) => if rotation.same(
                    Number { bits: 0 },
                ) {
                    outcome is Ok
                } else {
                    outcome == Err::<ContentView, _>(MapError::<Seq<char>>::RotatedRectangle)
                },
            }
        }),
{
}

/// each polyline of a path is put on the map, in the same order, and nothing else about the path
/// changes
pub proof fn law_paths_go_where_the_transform_puts_them(
    path: ContentView,
    projection: Projection,
    bounding_box: Option<Rect>,
    effect: Effect,
)
    requires
        path is Path,
    ensures
        placed(path, Some(projection), bounding_box, effect) matches Ok(there) && {
            &&& there is Path
            &&& there->closed == path->closed
            &&& there->self_clip == path->self_clip
            &&& there->decimation == path->decimation
            &&& there->Path_class == path->Path_class
            &&& there->parts.len() == path->parts.len()
            &&& forall|i: int|
                0 <= i < path->parts.len() ==> #[trigger] there->parts[i] == (effect.curve)(
                    projection,
                    path->parts[i],
                )
        },
{
}

/// a label goes where the transform puts it, but no farther than the edges of what is left of the
/// box around it: along each axis it stays if it is between them, and otherwise goes to the nearer
pub proof fn law_labels_go_to_the_nearer_edge(
    text: Seq<char>,
    location: SerializablePoint,
    class: Option<Seq<char>>,
    projection: Projection,
    bounding_box: Option<Rect>,
    effect: Effect,
)
    ensures
        placed(
            ContentView::Label { text, location, class },
            Some(projection),
            bounding_box,
            effect,
        ) matches Ok(there) && {
            let place = (effect.point)(projection, location);
            &&& there is Label
            &&& there->text == text
            &&& there->Label_class == class
            &&& bounding_box is None ==> there->Label_location == place
            &&& bounding_box matches Some(boks) ==> {
                let upright = if boks.top.below(boks.bottom) {
                    Rect {
                        left: boks.left,
                        right: boks.right,
                        top: boks.bottom,
                        bottom: boks.top,
                    }
                } else {
                    boks
                };
                let inner = (effect.inset)(upright);
                is_proper(inner) ==> is_drawn_to(
                    place.x,
                    there->Label_location.x,
                    inner.left,
                    inner.right,
                ) && is_drawn_to(place.y, there->Label_location.y, inner.bottom, inner.top)
            }
        },
{
}

/// whether a coordinate ends up where it was if that is between the ends, and otherwise at the nearer
/// of them
pub open spec fn is_drawn_to(from: Number, to: Number, low: Number, high: Number) -> bool {
    &&& low.value() <= to.value() <= high.value() && !to.is_nan()
    &&& !from.is_nan() && low.value() <= from.value() <= high.value() ==> to.value() == from.value()
    &&& !from.is_nan() && from.value() < low.value() ==> to.value() == low.value()
    &&& !from.is_nan() && from.value() > high.value() ==> to.value() == high.value()
}

/// whether each label in the content lies in what is left of the innermost box around it, if there is
/// room in it
pub open spec fn labels_are_inside(
    content: ContentView,
    bounding_box: Option<Rect>,
    inset: Inset,
) -> bool
    decreases content,
{
    match content {
        ContentView::Label { location, .. } => bounding_box matches Some(boks) ==> {
            let inner = inset(upright_box(boks));
            is_proper(inner) ==> between(inner.left, location.x, inner.right) && between(
                inner.bottom,
                location.y,
                inner.top,
            )
        },
        ContentView::Group { contents, bounding_box: own, .. } => all_labels_are_inside(
            contents,
            if own is Some {
                own
            } else {
                bounding_box
            },
            inset,
        ),
        ContentView::ClipPath { content, .. } => labels_are_inside(*content, bounding_box, inset),
        _ => true,
    }
}

/// whether each label in the pieces of content lies in what is left of the innermost box around it
pub open spec fn all_labels_are_inside(
    contents: Seq<ContentView>,
    bounding_box: Option<Rect>,
    inset: Inset,
) -> bool
    decreases contents,
{
    contents.len() > 0 ==> all_labels_are_inside(contents.drop_last(), bounding_box, inset)
        && labels_are_inside(contents.last(), bounding_box, inset)
}

/// at any depth, every label ends up inside the innermost box that is stated around it
pub proof fn law_every_label_is_inside(
    content: ContentView,
    projection: Option<Projection>,
    bounding_box: Option<Rect>,
    effect: Effect,
)
    ensures
        placed(content, projection, bounding_box, effect) matches Ok(result) ==> labels_are_inside(
            result,
            bounding_box,
            effect.inset,
        ),
    decreases content,
{
    match content {
        ContentView::Group { contents, bounding_box: own, region, transform, .. } => {
            lemma_all_labels_are_inside(
                contents,
                inner_projection(transform, own, region, projection),
                inner_box(own, bounding_box),
                effect,
            );
        },
        ContentView::ClipPath { content: inner, .. } => {
            law_every_label_is_inside(*inner, projection, bounding_box, effect);
        },
        ContentView::Label { location, .. } => {
            if projection is Some && bounding_box is Some {
                lemma_coerced_if_possible(
                    (effect.point)(projection->0, location),
                    (effect.inset)(upright_box(bounding_box->0)),
                );
            }
        },
        _ => {},
    }
}

proof fn lemma_coerced_if_possible(point: SerializablePoint, inner: Rect)
    ensures
        is_proper(inner) ==> between(inner.left, nearest_in(point, inner).x, inner.right)
            && between(inner.bottom, nearest_in(point, inner).y, inner.top),
{
    if is_proper(inner) {
        law_coerced_points_are_inside(point, inner);
    }
}

proof fn lemma_all_labels_are_inside(
    contents: Seq<ContentView>,
    projection: Option<Projection>,
    bounding_box: Option<Rect>,
    effect: Effect,
)
    ensures
        all_placed(contents, projection, bounding_box, effect) matches Ok(result)
            ==> all_labels_are_inside(result, bounding_box, effect.inset),
    decreases contents,
{
    if contents.len() > 0 {
        lemma_all_labels_are_inside(contents.drop_last(), projection, bounding_box, effect);
        law_every_label_is_inside(contents.last(), projection, bounding_box, effect);
        if let Ok(done) = all_placed(contents.drop_last(), projection, bounding_box, effect) {
            if let Ok(content) = placed(contents.last(), projection, bounding_box, effect) {
                assert(done.push(content).drop_last() =~= done);
            }
        }
    }
}

/// nothing can be placed where there is no transform, but for groups that have one of their own, and
/// layers and graticules can't be placed at all before they are loaded
pub proof fn law_elements_need_a_transform(
    element: ContentView,
    bounding_box: Option<Rect>,
    effect: Effect,
)
    ensures
        element is Line || element is Rectangle || element is Path || element is Marker || element
            is Label ==> placed(element, None, bounding_box, effect) == Err::<ContentView, _>(
            MapError::<Seq<char>>::NoRegion,
        ),
        forall|projection: Option<Projection>|
            {
                &&& element is Layer ==> (#[trigger] placed(
                    element,
                    projection,
                    bounding_box,
                    effect,
                )) == Err::<ContentView, _>(MapError::<Seq<char>>::LayerNotLoaded)
                &&& element is Graticule ==> placed(element, projection, bounding_box, effect)
                    == Err::<ContentView, _>(MapError::<Seq<char>>::GraticuleNotLoaded)
            },
{
}

} // verus!
