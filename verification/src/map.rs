//! Making a whole map.

use crate::content::{contents_view, lemma_contents_view, Content, ContentView};
use crate::decimals::{
    draw_content, drawn, is_complete, law_everything_is_drawn, letters, Lettering, Notation,
};
use crate::decimate::{computes, is_zero_at_ends, Metric};
use crate::document::{opening, Document, DocumentView};
use crate::drawing::{
    count_elements, drawing_count, law_every_element_is_counted, transcribed, BoxText, Drawing, DrawingView, PointText,
};
use crate::errors::{Failure, MapError};
use crate::geometry::{Projection, Rect, SerializablePoint, Transform};
use crate::graticule::{can_rule, rules, Rule, Ruler};
use crate::layers::Outcome;
use crate::load::{
    is_loaded, is_workable, law_loading_again_changes_nothing, law_loading_keeps_the_class,
    law_nothing_is_left_to_load, law_workable_content_can_be_loaded, loaded, try_load_content, went,
};
use crate::markup::indented;
use crate::number::Number;
use crate::place::{
    comes_to, establish_top_level, inner_projection, is_total, law_loaded_content_can_be_placed,
    law_nothing_is_lost_in_placing, placed, transform_content, Arithmetic, Effect,
};
use crate::thin::{
    decimate_content, is_decimable, is_thin, law_decimable_content_can_be_decimated,
    law_loaded_content_can_be_decimated, law_nothing_is_left_to_decimate, law_thin_content_stays,
    thinned,
};
use vstd::prelude::*;

verus! {

/// all the arithmetic that it takes to make a map
pub struct Tools<F, L, M, D, P, Q, R, S, T, U, V, W, X, Y> {
    /// what finds the lines of a graticule
    pub ruler: Ruler<F, L, M>,
    /// what finds how far a point is from a line segment between two others
    pub distance: D,
    /// what puts things on the map
    pub arithmetic: Arithmetic<P, Q, R, S, T>,
    /// what writes numbers
    pub notation: Notation<U, V, W, X>,
    /// what writes the corner of the page and its width and height
    pub page: Y,
}

/// what the arithmetic comes to
pub struct Means {
    pub rule: Rule,
    pub metric: Metric,
    pub effect: Effect,
    pub lettering: Lettering,
    pub page: spec_fn(Rect) -> BoxText<Seq<char>>,
}

/// whether the arithmetic can be done for any map
pub open spec fn are_ready<F, L, M, D, P, Q, R, S, T, U, V, W, X, Y>(
    tools: Tools<F, L, M, D, P, Q, R, S, T, U, V, W, X, Y>,
) -> bool where
    F: Fn(Number, Number) -> i32,
    L: Fn(Number, Number) -> i32,
    M: Fn(i32, Number) -> Number,
    D: Fn(SerializablePoint, SerializablePoint, SerializablePoint) -> Number,
    P: Fn(&Projection, SerializablePoint) -> SerializablePoint,
    Q: Fn(&Projection, &Vec<SerializablePoint>) -> Vec<SerializablePoint>,
    R: Fn(&Projection, Rect) -> Rect,
    S: Fn(&Projection, SerializablePoint, Number) -> Number,
    T: Fn(Rect) -> Rect,
    U: Fn(SerializablePoint) -> PointText<String>,
    V: Fn(Rect) -> BoxText<String>,
    W: Fn(Number) -> String,
    X: Fn(Number) -> String,
    Y: Fn(Rect) -> BoxText<String>,
 {
    &&& can_rule(tools.ruler)
    &&& forall|a: SerializablePoint, b: SerializablePoint, p: SerializablePoint| #[trigger]
        call_requires(tools.distance, (a, b, p))
    &&& is_total(tools.arithmetic)
    &&& is_complete(tools.notation)
    &&& forall|b: Rect| #[trigger] call_requires(tools.page, (b,))
}

/// whether this is what the arithmetic comes to
pub open spec fn serve<F, L, M, D, P, Q, R, S, T, U, V, W, X, Y>(
    tools: Tools<F, L, M, D, P, Q, R, S, T, U, V, W, X, Y>,
    means: Means,
) -> bool where
    F: Fn(Number, Number) -> i32,
    L: Fn(Number, Number) -> i32,
    M: Fn(i32, Number) -> Number,
    D: Fn(SerializablePoint, SerializablePoint, SerializablePoint) -> Number,
    P: Fn(&Projection, SerializablePoint) -> SerializablePoint,
    Q: Fn(&Projection, &Vec<SerializablePoint>) -> Vec<SerializablePoint>,
    R: Fn(&Projection, Rect) -> Rect,
    S: Fn(&Projection, SerializablePoint, Number) -> Number,
    T: Fn(Rect) -> Rect,
    U: Fn(SerializablePoint) -> PointText<String>,
    V: Fn(Rect) -> BoxText<String>,
    W: Fn(Number) -> String,
    X: Fn(Number) -> String,
    Y: Fn(Rect) -> BoxText<String>,
 {
    &&& rules(tools.ruler, means.rule)
    &&& computes(tools.distance, means.metric)
    &&& comes_to(tools.arithmetic, means.effect)
    &&& letters(tools.notation, means.lettering)
    &&& forall|b: Rect, s: BoxText<String>| #[trigger]
        call_ensures(tools.page, (b,), s) ==> s@ == (means.page)(b)
}

/// what there is around a piece of content
#[derive(Debug)]
pub struct Surroundings {
    pub region: Option<Rect>,
    pub projection: Option<Projection>,
    pub bounding_box: Rect,
}

/// what becomes of a piece of content: first it is loaded, then its curves are downsampled, then it
/// is put on the map, and then its numbers are written out.  nothing does if there is something in
/// it that can't be worked on.
pub open spec fn made(content: ContentView, around: Surroundings, means: Means) -> Outcome<
    DrawingView,
> {
    match loaded(content, around.region, means.rule) {
        Some(Ok(content)) => match thinned(content, means.metric) {
            Some(content) => match placed(
                content,
                around.projection,
                Some(around.bounding_box),
                means.effect,
            ) {
                Ok(content) => Some(Ok(drawn(content, means.lettering))),
                Err(e) => Some(Err(e)),
            },
            None => None,
        },
        Some(Err(e)) => Some(Err(e)),
        None => None,
    }
}

/// the document with another drawing in it, unless there are then too many elements to count
pub open spec fn with_drawing(
    document: DocumentView,
    drawing: DrawingView,
    outer: BoxText<Seq<char>>,
) -> Outcome<DocumentView> {
    if document.element_count + drawing_count(drawing) > u32::MAX {
        None
    } else {
        let (text, element_count) = transcribed(drawing, outer, document.element_count);
        match text {
            Ok(text) => Some(
                Ok(DocumentView { code: document.code + indented(text, "  "@), element_count }),
            ),
            Err(e) => Some(Err(e)),
        }
    }
}

/// the document with another piece of content in it
pub open spec fn with_content(
    document: DocumentView,
    content: ContentView,
    around: Surroundings,
    means: Means,
) -> Outcome<DocumentView> {
    match made(content, around, means) {
        Some(Ok(drawing)) => with_drawing(
            document,
            drawing,
            (means.lettering.boks)(around.bounding_box),
        ),
        Some(Err(e)) => Some(Err(e)),
        None => None,
    }
}

/// the document with one piece of content after another in it, unless something is wrong with one of
/// them
pub open spec fn with_contents(
    document: DocumentView,
    contents: Seq<ContentView>,
    around: Surroundings,
    means: Means,
) -> Outcome<DocumentView>
    decreases contents.len(),
{
    if contents.len() == 0 {
        Some(Ok(document))
    } else {
        match with_contents(document, contents.drop_last(), around, means) {
            Some(Ok(document)) => with_content(document, contents.last(), around, means),
            other => other,
        }
    }
}

/// what is said about a map as a whole
#[derive(Debug)]
pub struct Heading {
    pub title: String,
    pub description: String,
    pub style: String,
}

/// the code of a whole map
pub open spec fn map_code(
    heading: Heading,
    bounding_box: Option<Rect>,
    region: Option<Rect>,
    transform: Option<Transform>,
    contents: Seq<ContentView>,
    means: Means,
) -> Outcome<Seq<char>> {
    match bounding_box {
        None => Some(Err(MapError::NoTopLevelBox)),
        Some(boks) => {
            let projection = inner_projection(transform, bounding_box, region, None);
            let start = DocumentView {
                code: opening(
                    (means.page)(boks),
                    heading.title@,
                    heading.description@,
                    heading.style@,
                ),
                element_count: 0,
            };
            let around = Surroundings { region, projection, bounding_box: boks };
            match with_contents(start, contents, around, means) {
                Some(Ok(document)) => Some(Ok(document.code + "</svg>\n"@)),
                Some(Err(e)) => Some(Err(e)),
                None => None,
            }
        },
    }
}

/// what is wrong with the first pieces of content is wrong with all of them
proof fn lemma_first_failure(
    document: DocumentView,
    contents: Seq<ContentView>,
    around: Surroundings,
    means: Means,
    n: int,
)
    requires
        0 <= n <= contents.len(),
        !(with_contents(document, contents.take(n), around, means) matches Some(Ok(_))),
    ensures
        with_contents(document, contents, around, means) == with_contents(
            document,
            contents.take(n),
            around,
            means,
        ),
    decreases contents.len(),
{
    if n < contents.len() {
        assert(contents.drop_last().take(n) =~= contents.take(n));
        lemma_first_failure(document, contents.drop_last(), around, means, n);
    } else {
        assert(contents.take(n) =~= contents);
    }
}

/// what the result of drawing holds
pub open spec fn drawing_outcome(r: Option<Result<Drawing, Failure>>) -> Outcome<DrawingView> {
    match r {
        Some(Ok(drawing)) => Some(Ok(drawing@)),
        Some(Err(e)) => Some(Err(e@)),
        None => None,
    }
}

/// load a piece of content, downsample its curves, put it in its place on the map, and write out its
/// numbers
pub fn make_drawing<F, L, M, D, P, Q, R, S, T, U, V, W, X, Y>(
    content: Content,
    around: &Surroundings,
    tools: &Tools<F, L, M, D, P, Q, R, S, T, U, V, W, X, Y>,
) -> (r: Option<Result<Drawing, Failure>>) where
    F: Fn(Number, Number) -> i32,
    L: Fn(Number, Number) -> i32,
    M: Fn(i32, Number) -> Number,
    D: Fn(SerializablePoint, SerializablePoint, SerializablePoint) -> Number,
    P: Fn(&Projection, SerializablePoint) -> SerializablePoint,
    Q: Fn(&Projection, &Vec<SerializablePoint>) -> Vec<SerializablePoint>,
    R: Fn(&Projection, Rect) -> Rect,
    S: Fn(&Projection, SerializablePoint, Number) -> Number,
    T: Fn(Rect) -> Rect,
    U: Fn(SerializablePoint) -> PointText<String>,
    V: Fn(Rect) -> BoxText<String>,
    W: Fn(Number) -> String,
    X: Fn(Number) -> String,
    Y: Fn(Rect) -> BoxText<String>,

    requires
        are_ready(*tools),
    ensures
        forall|means: Means| #[trigger]
            serve(*tools, means) ==> drawing_outcome(r) == made(content@, *around, means),
        forall|rule: Rule|
            !((#[trigger] loaded(content@, around.region, rule)) matches Some(Ok(_))) ==> went(
                r,
                loaded(content@, around.region, rule),
            ),
{
    let content = match try_load_content(content, &around.region, &tools.ruler) {
        Some(Ok(content)) => content,
        Some(Err(e)) => {
            return Some(Err(e));
        },
        None => {
            return None;
        },
    };
    let content = match decimate_content(content, &tools.distance) {
        Some(content) => content,
        None => {
            return None;
        },
    };
    let boks = Some(around.bounding_box);
    match transform_content(content, &around.projection, &boks, &tools.arithmetic) {
        Ok(content) => Some(Ok(draw_content(content, &tools.notation))),
        Err(e) => Some(Err(e)),
    }
}

/// write the next piece of content
pub fn add_content<F, L, M, D, P, Q, R, S, T, U, V, W, X, Y>(
    document: &mut Document,
    content: Content,
    around: &Surroundings,
    tools: &Tools<F, L, M, D, P, Q, R, S, T, U, V, W, X, Y>,
) -> (r: Option<Result<(), Failure>>) where
    F: Fn(Number, Number) -> i32,
    L: Fn(Number, Number) -> i32,
    M: Fn(i32, Number) -> Number,
    D: Fn(SerializablePoint, SerializablePoint, SerializablePoint) -> Number,
    P: Fn(&Projection, SerializablePoint) -> SerializablePoint,
    Q: Fn(&Projection, &Vec<SerializablePoint>) -> Vec<SerializablePoint>,
    R: Fn(&Projection, Rect) -> Rect,
    S: Fn(&Projection, SerializablePoint, Number) -> Number,
    T: Fn(Rect) -> Rect,
    U: Fn(SerializablePoint) -> PointText<String>,
    V: Fn(Rect) -> BoxText<String>,
    W: Fn(Number) -> String,
    X: Fn(Number) -> String,
    Y: Fn(Rect) -> BoxText<String>,

    requires
        are_ready(*tools),
    ensures
        forall|means: Means| #[trigger]
            serve(*tools, means) ==> match with_content(
                old(document)@,
                content@,
                *around,
                means,
            ) {
                Some(Ok(result)) => r matches Some(Ok(_)) && final(document)@ == result,
                Some(Err(e)) => r matches Some(Err(failure)) && failure@ == e
                    && final(document)@.code == old(document)@.code,
                None => r is None && final(document)@ == old(document)@,
            },
{
    match make_drawing(content, around, tools) {
        Some(Ok(drawing)) => {
            if count_elements(&drawing, document.element_count()).is_none() {
                return None;
            }
            let write = &tools.notation.boks;
            let outer = write(around.bounding_box);
            Some(document.draw(&drawing, &outer))
        },
        Some(Err(e)) => Some(Err(e)),
        None => None,
    }
}

/// what the result of making a map holds
pub open spec fn map_outcome(r: Option<Result<String, Failure>>) -> Outcome<Seq<char>> {
    match r {
        Some(Ok(code)) => Some(Ok(code@)),
        Some(Err(e)) => Some(Err(e@)),
        None => None,
    }
}

/// make a map
pub fn make_map<F, L, M, D, P, Q, R, S, T, U, V, W, X, Y>(
    heading: &Heading,
    bounding_box: &Option<Rect>,
    region: &Option<Rect>,
    transform: Option<Transform>,
    contents: Vec<Content>,
    tools: &Tools<F, L, M, D, P, Q, R, S, T, U, V, W, X, Y>,
) -> (r: Option<Result<String, Failure>>) where
    F: Fn(Number, Number) -> i32,
    L: Fn(Number, Number) -> i32,
    M: Fn(i32, Number) -> Number,
    D: Fn(SerializablePoint, SerializablePoint, SerializablePoint) -> Number,
    P: Fn(&Projection, SerializablePoint) -> SerializablePoint,
    Q: Fn(&Projection, &Vec<SerializablePoint>) -> Vec<SerializablePoint>,
    R: Fn(&Projection, Rect) -> Rect,
    S: Fn(&Projection, SerializablePoint, Number) -> Number,
    T: Fn(Rect) -> Rect,
    U: Fn(SerializablePoint) -> PointText<String>,
    V: Fn(Rect) -> BoxText<String>,
    W: Fn(Number) -> String,
    X: Fn(Number) -> String,
    Y: Fn(Rect) -> BoxText<String>,

    requires
        are_ready(*tools),
    ensures
        forall|means: Means| #[trigger]
            serve(*tools, means) ==> map_outcome(r) == map_code(
                *heading,
                *bounding_box,
                *region,
                transform,
                contents_view(contents@),
                means,
            ),
        *bounding_box is None ==> map_outcome(r) == Some(
            Err::<Seq<char>, _>(MapError::<Seq<char>>::NoTopLevelBox),
        ),
{
    let (boks, projection) = match establish_top_level(bounding_box, region, transform) {
        Ok(found) => found,
        Err(e) => {
            return Some(Err(e));
        },
    };
    let around = Surroundings { region: *region, projection, bounding_box: boks };
    let write = &tools.page;
    let page = write(boks);
    let mut document = Document::new(
        &page,
        heading.title.as_str(),
        heading.description.as_str(),
        heading.style.as_str(),
    );
    let ghost start = document@;
    let ghost all = contents@;
    let ghost goal = contents_view(all);
    proof {
        lemma_contents_view(all);
        assert(goal.take(0) =~= Seq::empty());
    }
    for content in it: contents
        invariant
            it.seq() == all,
            all == contents@,
            goal == contents_view(all),
            goal.len() == all.len(),
            forall|i: int| 0 <= i < all.len() ==> #[trigger] goal[i] == all[i]@,
            are_ready(*tools),
            forall|means: Means| #[trigger]
                serve(*tools, means) ==> with_contents(
                    start,
                    goal.take(it.index()),
                    around,
                    means,
                ) == Some(Ok::<_, MapError<Seq<char>>>(document@)),
            *bounding_box is Some,
            forall|means: Means| #[trigger]
                serve(*tools, means) ==> map_code(
                    *heading,
                    *bounding_box,
                    *region,
                    transform,
                    goal,
                    means,
                ) == (match with_contents(start, goal, around, means) {
                    Some(Ok(document)) => Some(Ok(document.code + "</svg>\n"@)),
                    Some(Err(e)) => Some(Err(e)),
                    None => None,
                }),
    {
        let ghost i = it.index();
        proof {
            assert(goal.take(i + 1).drop_last() =~= goal.take(i));
            assert(goal.take(i + 1).last() == content@);
        }
        match add_content(&mut document, content, &around, tools) {
            Some(Ok(_)) => {},
            Some(Err(e)) => {
                proof {
                    assert forall|means: Means| #[trigger] serve(*tools, means) implies map_code(
                        *heading,
                        *bounding_box,
                        *region,
                        transform,
                        goal,
                        means,
                    ) == Some(Err::<Seq<char>, _>(e@)) by {
                        lemma_first_failure(start, goal, around, means, i + 1);
                    }
                }
                return Some(Err(e));
            },
            None => {
                proof {
                    assert forall|means: Means| #[trigger] serve(*tools, means) implies map_code(
                        *heading,
                        *bounding_box,
                        *region,
                        transform,
                        goal,
                        means,
                    ) is None by {
                        lemma_first_failure(start, goal, around, means, i + 1);
                    }
                }
                return None;
            },
        }
    }
    assert(goal.take(all.len() as int) =~= goal);
    Some(Ok(document.finish()))
}

/// whatever a piece of content becomes has the class of the content, and by then there is nothing
/// left to load
pub proof fn law_all_that_is_drawn_has_been_loaded(
    content: ContentView,
    around: Surroundings,
    means: Means,
)
    ensures
        made(content, around, means) matches Some(Ok(drawing)) ==> {
            &&& drawing.own_class() == content.own_class()
            &&& exists|whole: ContentView|
                is_loaded(whole) && drawing == #[trigger] drawn(whole, means.lettering)
        },
{
    law_loading_keeps_the_class(content, around.region, means.rule);
    law_nothing_is_left_to_load(content, around.region, means.rule);
    if let Some(Ok(whole)) = loaded(content, around.region, means.rule) {
        law_nothing_is_left_to_decimate(whole, means.metric);
        if let Some(thin) = thinned(whole, means.metric) {
            let boks = Some(around.bounding_box);
            law_nothing_is_lost_in_placing(thin, around.projection, boks, means.effect);
            if let Ok(there) = placed(thin, around.projection, boks, means.effect) {
                law_everything_is_drawn(there, means.lettering);
            }
        }
    }
}

/// something becomes of any content in which everything can be worked on, unless there is an error.
/// if there is nothing to load in it and there is a transform, all that can be wrong is that a
/// rectangle is under a transform that won't do for it.
pub proof fn law_workable_content_is_drawn(
    content: ContentView,
    around: Surroundings,
    means: Means,
)
    requires
        is_workable(content),
        is_decimable(content),
        is_zero_at_ends(means.metric),
    ensures
        made(content, around, means) is Some,
        is_loaded(content) && around.projection is Some ==> (made(
            content,
            around,
            means,
        ) matches Some(Err(e)) ==> e is RotatedRectangle || e is ObliqueRectangle),
{
    law_workable_content_can_be_loaded(content, around.region, means.rule);
    law_loaded_content_can_be_decimated(content, around.region, means.rule);
    if let Some(Ok(whole)) = loaded(content, around.region, means.rule) {
        law_decimable_content_can_be_decimated(whole, means.metric);
    }
    if is_loaded(content) {
        law_loading_again_changes_nothing(content, around.region, means.rule);
        law_nothing_is_left_to_decimate(content, means.metric);
        if let Some(thin) = thinned(content, means.metric) {
            let boks = Some(around.bounding_box);
            law_loaded_content_can_be_placed(thin, around.projection, boks, means.effect);
        }
    }
}

/// the pieces of content are written one after another: those at the end come after whatever the
/// others left
pub proof fn law_contents_are_written_in_order(
    document: DocumentView,
    before: Seq<ContentView>,
    after: Seq<ContentView>,
    around: Surroundings,
    means: Means,
)
    ensures
        with_contents(document, before + after, around, means) == (match with_contents(
            document,
            before,
            around,
            means,
        ) {
            Some(Ok(middle)) => with_contents(middle, after, around, means),
            other => other,
        }),
        with_contents(document, before, around, means) matches Some(Ok(middle))
            ==> document.code.is_prefix_of(middle.code) && document.element_count
            <= middle.element_count,
    decreases before.len() + after.len(),
{
    let all = before + after;
    if after.len() > 0 {
        assert(all.drop_last() =~= before + after.drop_last());
        law_contents_are_written_in_order(document, before, after.drop_last(), around, means);
    } else {
        assert(all =~= before);
        if before.len() > 0 {
            law_contents_are_written_in_order(document, before.drop_last(), after, around, means);
            if let Some(Ok(middle)) = with_contents(document, before.drop_last(), around, means) {
                if let Some(Ok(drawing)) = made(before.last(), around, means) {
                    let outer = (means.lettering.boks)(around.bounding_box);
                    law_every_element_is_counted(drawing, outer, middle.element_count);
                }
            }
        }
    }
}

/// content is drawn as what it is loaded as, which is drawn as what is left of it when its curves have
/// been downsampled, which is drawn where it is placed: under the transform and in the box around it
pub proof fn law_each_step_comes_after_the_last(
    content: ContentView,
    around: Surroundings,
    means: Means,
)
    ensures
        match loaded(content, around.region, means.rule) {
            Some(Ok(whole)) => made(content, around, means) == made(whole, around, means),
            Some(Err(e)) => made(content, around, means) == Some(Err::<DrawingView, _>(e)),
            None => made(content, around, means) is None,
        },
        is_loaded(content) ==> match thinned(content, means.metric) {
            Some(thin) => made(content, around, means) == made(thin, around, means),
            None => made(content, around, means) is None,
        },
        is_loaded(content) && is_thin(content) ==> match placed(
            content,
            around.projection,
            Some(around.bounding_box),
            means.effect,
        ) {
            Ok(there) => made(content, around, means) == Some(
                Ok::<_, MapError<Seq<char>>>(drawn(there, means.lettering)),
            ),
            Err(e) => made(content, around, means) == Some(Err::<DrawingView, _>(e)),
        },
{
    law_nothing_is_left_to_load(content, around.region, means.rule);
    if let Some(Ok(whole)) = loaded(content, around.region, means.rule) {
        law_loading_again_changes_nothing(whole, around.region, means.rule);
    }
    if is_loaded(content) {
        law_loading_again_changes_nothing(content, around.region, means.rule);
        law_nothing_is_left_to_decimate(content, means.metric);
        if let Some(thin) = thinned(content, means.metric) {
            law_loading_again_changes_nothing(thin, around.region, means.rule);
            law_thin_content_stays(thin, means.metric);
        }
        if is_thin(content) {
            law_thin_content_stays(content, means.metric);
        }
    }
}

/// what is drawn is added to the end of the document, indented once more, and its elements are counted
pub proof fn law_documents_grow_at_the_end(
    document: DocumentView,
    content: ContentView,
    around: Surroundings,
    means: Means,
)
    ensures
        match made(content, around, means) {
            Some(Ok(drawing)) => {
                let outer = (means.lettering.boks)(around.bounding_box);
                let (text, count) = transcribed(drawing, outer, document.element_count);
                let outcome = with_content(document, content, around, means);
                if document.element_count + drawing_count(drawing) > 0xffff_ffff {
                    outcome is None
                } else {
                    match text {
                        Ok(text) => outcome matches Some(Ok(longer)) && longer.code
                            == document.code + indented(text, "  "@) && longer.element_count
                            == document.element_count + drawing_count(drawing),
                        Err(e) => outcome == Some(Err::<DocumentView, _>(e)),
                    }
                }
            },
            Some(Err(e)) => with_content(document, content, around, means) == Some(
                Err::<DocumentView, _>(e),
            ),
            None => with_content(document, content, around, means) is None,
        },
{
    if let Some(Ok(drawing)) = made(content, around, means) {
        let outer = (means.lettering.boks)(around.bounding_box);
        law_every_element_is_counted(drawing, outer, document.element_count);
    }
}

/// a map begins with the size of its page and what is said about it, and ends where the document does.
/// between that are its contents, in its region, in its box, and under the transform that it states or
/// else the one that fits its region to its box.  there is no map without a box.
pub proof fn law_maps_have_a_page_around_them(
    heading: Heading,
    bounding_box: Option<Rect>,
    region: Option<Rect>,
    transform: Option<Transform>,
    contents: Seq<ContentView>,
    means: Means,
)
    ensures
        ({
            let outcome = map_code(heading, bounding_box, region, transform, contents, means);
            match bounding_box {
                None => outcome == Some(
                    Err::<Seq<char>, _>(MapError::<Seq<char>>::NoTopLevelBox),
                ),
                Some(boks) => {
                    let page = (means.page)(boks);
                    let start = DocumentView {
                        code: "<svg viewBox=\""@ + page.left + " "@ + page.top + " "@ + page.width
                            + " "@ + page.height + "\" width=\""@ + page.width + "mm\" height=\""@
                            + page.height
                            + "mm\" xmlns=\"http://www.w3.org/2000/svg\" version=\"1.1\">\n  <title>"@
                            + heading.title@ + "</title>\n  <desc>"@ + heading.description@
                            + "</desc>\n  <style>\n"@ + heading.style@ + "\n  </style>\n"@,
                        element_count: 0,
                    };
                    let projection = if transform is Some {
                        Some(Projection::Stated(transform->0))
                    } else if region is Some {
                        Some(Projection::Fitted { region: region->0, bounding_box: boks })
                    } else {
                        None
                    };
                    let around = Surroundings { region, projection, bounding_box: boks };
                    match with_contents(start, contents, around, means) {
                        Some(Ok(document)) => outcome == Some(
                            Ok::<_, MapError<Seq<char>>>(document.code + "</svg>\n"@),
                        ),
                        Some(Err(e)) => outcome == Some(Err::<Seq<char>, _>(e)),
                        None => outcome is None,
                    }
                },
            }
        }),
{
}

/// the contents of a map are written one by one, from the first to the last, and the first that can't be
/// written is what is wrong with the map
pub proof fn law_contents_are_added_one_by_one(
    document: DocumentView,
    content: ContentView,
    contents: Seq<ContentView>,
    around: Surroundings,
    means: Means,
)
    ensures
        with_contents(document, Seq::empty(), around, means) == Some(
            Ok::<_, MapError<Seq<char>>>(document),
        ),
        with_contents(document, seq![content] + contents, around, means) == (match with_content(
            document,
            content,
            around,
            means,
        ) {
            Some(Ok(longer)) => with_contents(longer, contents, around, means),
            other => other,
        }),
{
    law_contents_are_written_in_order(document, seq![content], contents, around, means);
    assert(seq![content].drop_last() =~= Seq::empty());
    assert(with_contents(document, seq![content].drop_last(), around, means) == Some(
        Ok::<_, MapError<Seq<char>>>(document),
    ));
}

} // verus!
