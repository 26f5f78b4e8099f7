//! Putting curves on the map with as many points as it takes to keep them smooth.

use crate::decimate::{computes, Metric};
use crate::geometry::SerializablePoint;
use crate::number::Number;
use vstd::prelude::*;

verus! {

/// a point of a curve, before and after the transform
#[derive(Clone, Copy, Debug, PartialEq, Eq, Structural)]
pub struct Vertex {
    pub raw: SerializablePoint,
    pub transformed: SerializablePoint,
}

/// a curve that is being put on the map.  it is inspected from one end to the other, and wherever
/// the straight line between two points won't do, the point halfway between them is put in.
#[derive(Debug)]
pub struct Curve {
    /// the points that have been found to do
    finished: Vec<Vertex>,
    /// the points that haven't been inspected yet, the next of them last
    pending: Vec<Vertex>,
    /// whether the transform keeps straight lines straight
    affine: bool,
    /// how far from a straight line the curve may be
    tolerance: Number,
}

/// what a curve holds
#[verifier::ext_equal]
pub struct CurveView {
    /// the points that have been found to do
    pub finished: Seq<Vertex>,
    /// the points that haven't been inspected yet, in order
    pub pending: Seq<Vertex>,
    pub affine: bool,
    pub tolerance: Number,
}

impl View for Curve {
    type V = CurveView;

    closed spec fn view(&self) -> CurveView {
        CurveView {
            finished: self.finished@,
            pending: self.pending@.reverse(),
            affine: self.affine,
            tolerance: self.tolerance,
        }
    }
}

impl CurveView {
    /// whether there is a point to start from, if there is any point at all
    pub open spec fn is_under_way(self) -> bool {
        self.pending.len() > 0 ==> self.finished.len() > 0
    }

    /// all the points of the curve so far
    pub open spec fn whole(self) -> Seq<Vertex> {
        self.finished + self.pending
    }

    /// whether a straight line does, if the point halfway is this far from it
    pub open spec fn tolerates(self, distance: Number) -> bool {
        if self.affine {
            Number { bits: 0 }.below(self.tolerance)
        } else {
            distance.below(self.tolerance)
        }
    }

    /// the curve after the next point has been inspected
    pub open spec fn inspected(self, tween: Vertex, distance: Number) -> CurveView {
        if self.tolerates(distance) {
            CurveView {
                finished: self.finished.push(self.pending.first()),
                pending: self.pending.drop_first(),
                ..self
            }
        } else {
            CurveView { pending: seq![tween] + self.pending, ..self }
        }
    }
}

/// the curve before anything has been inspected but its first point, which always does
pub open spec fn fresh(vertices: Seq<Vertex>, affine: bool, tolerance: Number) -> CurveView {
    let n: int = if vertices.len() > 0 {
        1
    } else {
        0
    };
    CurveView { finished: vertices.take(n), pending: vertices.skip(n), affine, tolerance }
}

impl Curve {
    /// take the points of a curve, already transformed, and make a start with the first of them
    pub fn new(vertices: &Vec<Vertex>, affine: bool, tolerance: Number) -> (curve: Curve)
        ensures
            curve@ == fresh(vertices@, affine, tolerance),
            curve@.is_under_way(),
    {
        let mut pending: Vec<Vertex> = Vec::new();
        let n = vertices.len();
        for i in 0..n
            invariant
                n == vertices@.len(),
                pending@ == vertices@.skip(n - i).reverse(),
        {
            pending.push(vertices[n - 1 - i]);
            assert(pending@ =~= vertices@.skip(n - i - 1).reverse());
        }
        assert(vertices@.skip(0) =~= vertices@);
        let mut finished: Vec<Vertex> = Vec::new();
        // the first one is a freebie
        match pending.pop() {
            Some(initial) => finished.push(initial),
            None => {},
        }
        let curve = Curve { finished, pending, affine, tolerance };
        assert(curve@ =~= fresh(vertices@, affine, tolerance));
        curve
    }

    /// the last point that was found to do and the next one to inspect, if there is any
    pub fn next(&self) -> (r: Option<(Vertex, Vertex)>)
        requires
            self@.is_under_way(),
        ensures
            r == (if self@.pending.len() > 0 {
                Some((self@.finished.last(), self@.pending.first()))
            } else {
                None
            }),
    {
        let n = self.pending.len();
        if n > 0 {
            Some((self.finished[self.finished.len() - 1], self.pending[n - 1]))
        } else {
            None
        }
    }

    /// inspect the next point, given the one between it and the last that was found to do, and how
    /// far that one is from the line segment between its neighbors
    pub fn inspect(&mut self, tween: Vertex, distance: Number)
        requires
            old(self)@.is_under_way(),
            old(self)@.pending.len() > 0,
        ensures
            final(self)@ == old(self)@.inspected(tween, distance),
            final(self)@.is_under_way(),
    {
        let distance = if self.affine {
            Number { bits: 0 }
        } else {
            distance
        };
        // if it's pretty close, discard the midpoint and save the pending point
        if distance.less_than(self.tolerance) {
            let next = self.pending[self.pending.len() - 1];
            self.pending.pop();
            self.finished.push(next);
        }
        // if it's significantly off, put it back on the queue along with the midpoint
         else {
            self.pending.push(tween);
        }
        assert(self@ =~= old(self)@.inspected(tween, distance));
    }

    /// remove all the raw points so only transformed points are left
    pub fn finish(&self) -> (points: Vec<SerializablePoint>)
        ensures
            points@ == self@.finished.map_values(|vertex: Vertex| vertex.transformed),
    {
        let mut points: Vec<SerializablePoint> = Vec::new();
        let ghost all = self.finished@.map_values(|vertex: Vertex| vertex.transformed);
        for i in 0..self.finished.len()
            invariant
                all == self.finished@.map_values(|vertex: Vertex| vertex.transformed),
                points@ == all.take(i as int),
        {
            points.push(self.finished[i].transformed);
            assert(points@ =~= all.take(i + 1));
        }
        assert(all.take(all.len() as int) =~= all);
        points
    }
}

/// whether the one list is what is left of the other when some of its items are taken out
pub open spec fn is_part_of(some: Seq<Vertex>, all: Seq<Vertex>) -> bool
    decreases all.len(),
{
    if some.len() == 0 {
        true
    } else if all.len() == 0 {
        false
    } else if some.last() == all.last() {
        is_part_of(some.drop_last(), all.drop_last())
    } else {
        is_part_of(some, all.drop_last())
    }
}

proof fn lemma_part_of_itself(all: Seq<Vertex>)
    ensures
        is_part_of(all, all),
    decreases all.len(),
{
    if all.len() > 0 {
        lemma_part_of_itself(all.drop_last());
    }
}

proof fn lemma_part_without_last(some: Seq<Vertex>, all: Seq<Vertex>)
    requires
        some.len() > 0,
        is_part_of(some, all),
    ensures
        is_part_of(some.drop_last(), all),
    decreases all.len(),
{
    let fewer = some.drop_last();
    if fewer.len() > 0 {
        if some.last() == all.last() {
            if fewer.last() == all.last() {
                lemma_part_without_last(fewer, all.drop_last());
            }
        } else {
            lemma_part_without_last(some, all.drop_last());
            if fewer.last() == all.last() {
                lemma_part_without_last(fewer, all.drop_last());
            }
        }
    }
}

proof fn lemma_part_with_another(some: Seq<Vertex>, before: Seq<Vertex>, item: Vertex, after: Seq<
    Vertex,
>)
    requires
        is_part_of(some, before + after),
    ensures
        is_part_of(some, before + seq![item] + after),
    decreases after.len(),
{
    let all = before + seq![item] + after;
    if some.len() > 0 {
        if after.len() == 0 {
            assert(before + after =~= before);
            assert(all.drop_last() =~= before);
            if some.last() == item {
                lemma_part_without_last(some, before);
            }
        } else {
            assert((before + after).drop_last() =~= before + after.drop_last());
            assert(all.drop_last() =~= before + seq![item] + after.drop_last());
            if some.last() == after.last() {
                lemma_part_with_another(some.drop_last(), before, item, after.drop_last());
            } else {
                lemma_part_with_another(some, before, item, after.drop_last());
            }
        }
    }
}

/// the curve after a number of inspections, or as many as it takes, given what came of each
pub open spec fn inspected_all(curve: CurveView, answers: Seq<(Vertex, Number)>) -> CurveView
    decreases answers.len(),
{
    if answers.len() == 0 {
        curve
    } else {
        let before = inspected_all(curve, answers.drop_last());
        if before.pending.len() > 0 {
            before.inspected(answers.last().0, answers.last().1)
        } else {
            before
        }
    }
}

/// whatever comes of the inspections, no point of the curve is lost, nor do they change places, and
/// the curve starts and ends where it did.  so when nothing is pending anymore, they are all among
/// the points that do.
pub proof fn law_no_point_is_lost(
    vertices: Seq<Vertex>,
    affine: bool,
    tolerance: Number,
    answers: Seq<(Vertex, Number)>,
)
    ensures
        ({
            let curve = inspected_all(fresh(vertices, affine, tolerance), answers);
            &&& curve.is_under_way()
            &&& is_part_of(vertices, curve.whole())
            &&& vertices.len() == 0 <==> curve.whole().len() == 0
            &&& vertices.len() > 0 ==> curve.whole().first() == vertices.first()
                && curve.whole().last() == vertices.last()
            &&& curve.pending.len() == 0 ==> is_part_of(vertices, curve.finished)
        }),
    decreases answers.len(),
{
    let curve = inspected_all(fresh(vertices, affine, tolerance), answers);
    if answers.len() == 0 {
        assert(curve.whole() =~= vertices);
        lemma_part_of_itself(vertices);
    } else {
        law_no_point_is_lost(vertices, affine, tolerance, answers.drop_last());
        let before = inspected_all(fresh(vertices, affine, tolerance), answers.drop_last());
        let (tween, distance) = answers.last();
        if before.pending.len() > 0 {
            if before.tolerates(distance) {
                assert(curve.whole() =~= before.whole());
            } else {
                assert(curve.whole() =~= before.finished + seq![tween] + before.pending);
                lemma_part_with_another(vertices, before.finished, tween, before.pending);
            }
        }
    }
    if curve.pending.len() == 0 {
        assert(curve.whole() =~= curve.finished);
    }
}

/// under a transform that keeps lines straight, no points are put in, and one inspection for each
/// point but the first is enough
pub proof fn law_straight_lines_stay_as_they_are(
    vertices: Seq<Vertex>,
    tolerance: Number,
    answers: Seq<(Vertex, Number)>,
)
    requires
        (Number { bits: 0 }).below(tolerance),
    ensures
        ({
            let curve = inspected_all(fresh(vertices, true, tolerance), answers);
            &&& curve.whole() == vertices
            &&& answers.len() + 1 >= vertices.len() ==> curve.finished == vertices
                && curve.pending.len() == 0
        }),
{
    lemma_straight_lines(vertices, tolerance, answers);
    let curve = inspected_all(fresh(vertices, true, tolerance), answers);
    if curve.pending.len() == 0 {
        assert(curve.whole() =~= curve.finished);
    }
}

proof fn lemma_straight_lines(
    vertices: Seq<Vertex>,
    tolerance: Number,
    answers: Seq<(Vertex, Number)>,
)
    requires
        (Number { bits: 0 }).below(tolerance),
    ensures
        ({
            let curve = inspected_all(fresh(vertices, true, tolerance), answers);
            &&& curve.affine
            &&& curve.tolerance == tolerance
            &&& curve.whole() == vertices
            &&& curve.pending.len() > 0 ==> curve.pending.len() == vertices.len() - 1
                - answers.len()
        }),
    decreases answers.len(),
{
    let curve = inspected_all(fresh(vertices, true, tolerance), answers);
    if answers.len() == 0 {
        assert(curve.whole() =~= vertices);
    } else {
        lemma_straight_lines(vertices, tolerance, answers.drop_last());
        let before = inspected_all(fresh(vertices, true, tolerance), answers.drop_last());
        if before.pending.len() > 0 {
            assert(curve.whole() =~= before.whole());
        }
    }
}

/// what has been found to do stays as it is
pub proof fn law_what_is_finished_stays(curve: CurveView, answers: Seq<(Vertex, Number)>)
    ensures
        curve.finished.is_prefix_of(inspected_all(curve, answers).finished),
    decreases answers.len(),
{
    if answers.len() > 0 {
        law_what_is_finished_stays(curve, answers.drop_last());
    }
}

/// how far the point halfway between two others is from the line segment between them on the map
pub type Bend = spec_fn(Vertex, Vertex) -> Number;

/// whether the curve is within the tolerance of a straight line between each two neighbors
pub open spec fn is_smooth(vertices: Seq<Vertex>, tolerance: Number, bend: Bend) -> bool {
    forall|i: int, j: int|
        0 <= i && j == i + 1 && j < vertices.len() ==> bend(
            #[trigger] vertices[i],
            #[trigger] vertices[j],
        ).below(tolerance)
}

/// whether each of the distances is the one that was asked for at that inspection
pub open spec fn are_true(curve: CurveView, answers: Seq<(Vertex, Number)>, bend: Bend) -> bool
    decreases answers.len(),
{
    if answers.len() == 0 {
        true
    } else {
        let before = inspected_all(curve, answers.drop_last());
        are_true(curve, answers.drop_last(), bend) && (before.pending.len() > 0
            ==> answers.last().1 == bend(before.finished.last(), before.pending.first()))
    }
}

/// as long as the distances are those that were asked for, what has been found to do is smooth
pub proof fn law_finished_curves_are_smooth(
    vertices: Seq<Vertex>,
    tolerance: Number,
    answers: Seq<(Vertex, Number)>,
    bend: Bend,
)
    requires
        are_true(fresh(vertices, false, tolerance), answers, bend),
    ensures
        is_smooth(
            inspected_all(fresh(vertices, false, tolerance), answers).finished,
            tolerance,
            bend,
        ),
{
    lemma_smooth_so_far(vertices, tolerance, answers, bend);
}

proof fn lemma_smooth_so_far(
    vertices: Seq<Vertex>,
    tolerance: Number,
    answers: Seq<(Vertex, Number)>,
    bend: Bend,
)
    requires
        are_true(fresh(vertices, false, tolerance), answers, bend),
    ensures
        ({
            let curve = inspected_all(fresh(vertices, false, tolerance), answers);
            &&& !curve.affine
            &&& curve.tolerance == tolerance
            &&& is_smooth(curve.finished, tolerance, bend)
        }),
    decreases answers.len(),
{
    if answers.len() > 0 {
        lemma_smooth_so_far(vertices, tolerance, answers.drop_last(), bend);
    }
}

/// whether a point is where the transform puts it
pub open spec fn is_image(
    vertex: Vertex,
    transform: spec_fn(SerializablePoint) -> SerializablePoint,
) -> bool {
    vertex.transformed == transform(vertex.raw)
}

/// as long as every point is where the transform puts it, those that the curve starts with and those
/// that are put in, each point of the curve is
pub proof fn law_points_are_where_the_transform_puts_them(
    vertices: Seq<Vertex>,
    affine: bool,
    tolerance: Number,
    answers: Seq<(Vertex, Number)>,
    transform: spec_fn(SerializablePoint) -> SerializablePoint,
)
    requires
        forall|i: int| 0 <= i < vertices.len() ==> is_image(#[trigger] vertices[i], transform),
        forall|i: int| 0 <= i < answers.len() ==> is_image((#[trigger] answers[i]).0, transform),
    ensures
        ({
            let curve = inspected_all(fresh(vertices, affine, tolerance), answers);
            &&& forall|i: int|
                0 <= i < curve.whole().len() ==> is_image(#[trigger] curve.whole()[i], transform)
            &&& curve.finished.map_values(|vertex: Vertex| vertex.transformed)
                == curve.finished.map_values(|vertex: Vertex| transform(vertex.raw))
        }),
    decreases answers.len(),
{
    let curve = inspected_all(fresh(vertices, affine, tolerance), answers);
    if answers.len() == 0 {
        assert(curve.whole() =~= vertices);
    } else {
        let fewer = answers.drop_last();
        assert forall|i: int| 0 <= i < fewer.len() implies is_image(
            (#[trigger] fewer[i]).0,
            transform,
        ) by {
            assert(fewer[i] == answers[i]);
        }
        law_points_are_where_the_transform_puts_them(
            vertices,
            affine,
            tolerance,
            fewer,
            transform,
        );
        let before = inspected_all(fresh(vertices, affine, tolerance), fewer);
        let (tween, distance) = answers.last();
        assert(is_image(answers[answers.len() - 1].0, transform));
        if before.pending.len() > 0 {
            if before.tolerates(distance) {
                assert(curve.whole() =~= before.whole());
            } else {
                assert(curve.whole() =~= before.whole().insert(
                    before.finished.len() as int,
                    tween,
                ));
            }
        }
    }
    assert forall|i: int| 0 <= i < curve.finished.len() implies is_image(
        #[trigger] curve.finished[i],
        transform,
    ) by {
        assert(curve.whole()[i] == curve.finished[i]);
    }
    assert(curve.finished.map_values(|vertex: Vertex| vertex.transformed)
        =~= curve.finished.map_values(|vertex: Vertex| transform(vertex.raw)));
}

/// the points of a curve before the transform
pub open spec fn raw_points(vertices: Seq<Vertex>) -> Seq<SerializablePoint> {
    vertices.map_values(|vertex: Vertex| vertex.raw)
}

/// the point halfway between two others
pub type Middle = spec_fn(SerializablePoint, SerializablePoint) -> SerializablePoint;

/// the polyline with points put in, one after another, each at the given place, halfway between the
/// two that it comes between
pub open spec fn refined(
    points: Seq<SerializablePoint>,
    places: Seq<int>,
    middle: Middle,
) -> Seq<SerializablePoint>
    decreases places.len(),
{
    if places.len() == 0 {
        points
    } else {
        let before = refined(points, places.drop_last(), middle);
        let place = places.last();
        before.insert(place, middle(before[place - 1], before[place]))
    }
}

/// the places at which points are put in
pub open spec fn places(curve: CurveView, answers: Seq<(Vertex, Number)>) -> Seq<int>
    decreases answers.len(),
{
    if answers.len() == 0 {
        Seq::empty()
    } else {
        let before = inspected_all(curve, answers.drop_last());
        if before.pending.len() > 0 && !before.tolerates(answers.last().1) {
            places(curve, answers.drop_last()).push(before.finished.len() as int)
        } else {
            places(curve, answers.drop_last())
        }
    }
}

/// whether each of the points is the one that was asked for at that inspection
pub open spec fn are_halfway(
    curve: CurveView,
    answers: Seq<(Vertex, Number)>,
    middle: Middle,
) -> bool
    decreases answers.len(),
{
    if answers.len() == 0 {
        true
    } else {
        let before = inspected_all(curve, answers.drop_last());
        are_halfway(curve, answers.drop_last(), middle) && (before.pending.len() > 0
            ==> answers.last().0.raw == middle(
            before.finished.last().raw,
            before.pending.first().raw,
        ))
    }
}

/// as long as the points are those that were asked for, the curve runs along the polyline that it
/// started as: all that is put in are points halfway between two neighbors
pub proof fn law_curves_are_refined_polylines(
    vertices: Seq<Vertex>,
    affine: bool,
    tolerance: Number,
    answers: Seq<(Vertex, Number)>,
    middle: Middle,
)
    requires
        are_halfway(fresh(vertices, affine, tolerance), answers, middle),
    ensures
        ({
            let start = fresh(vertices, affine, tolerance);
            let curve = inspected_all(start, answers);
            raw_points(curve.whole()) == refined(
                raw_points(vertices),
                places(start, answers),
                middle,
            )
        }),
    decreases answers.len(),
{
    let start = fresh(vertices, affine, tolerance);
    let curve = inspected_all(start, answers);
    if answers.len() == 0 {
        assert(curve.whole() =~= vertices);
    } else {
        law_curves_are_refined_polylines(
            vertices,
            affine,
            tolerance,
            answers.drop_last(),
            middle,
        );
        law_no_point_is_lost(vertices, affine, tolerance, answers.drop_last());
        let before = inspected_all(start, answers.drop_last());
        let (tween, distance) = answers.last();
        if before.pending.len() > 0 {
            if before.tolerates(distance) {
                assert(curve.whole() =~= before.whole());
            } else {
                let place = before.finished.len() as int;
                let earlier = places(start, answers.drop_last());
                let points = raw_points(before.whole());
                assert(points[place - 1] == before.finished.last().raw);
                assert(points[place] == before.pending.first().raw);
                assert(earlier.push(place).drop_last() =~= earlier);
                assert(raw_points(curve.whole()) =~= points.insert(place, tween.raw));
            }
        }
    }
}

/// where each point is put
pub type Image = spec_fn(SerializablePoint) -> SerializablePoint;

/// whether the function puts points there
pub open spec fn puts<A: Fn(SerializablePoint) -> SerializablePoint>(
    function: A,
    transform: Image,
) -> bool {
    forall|p: SerializablePoint, q: SerializablePoint| #[trigger]
        call_ensures(function, (p,), q) ==> q == transform(p)
}

/// whether the function finds the point halfway between two others
pub open spec fn halves<B: Fn(SerializablePoint, SerializablePoint) -> SerializablePoint>(
    function: B,
    middle: Middle,
) -> bool {
    forall|p: SerializablePoint, q: SerializablePoint, m: SerializablePoint| #[trigger]
        call_ensures(function, (p, q), m) ==> m == middle(p, q)
}

/// what it takes to put a curve on the map
pub struct Guide {
    pub transform: Image,
    pub middle: Middle,
    pub metric: Metric,
}

/// a point and where it is put
pub open spec fn placed_vertex(raw: SerializablePoint, transform: Image) -> Vertex {
    Vertex { raw, transformed: transform(raw) }
}

/// the points of a polyline and where they are put
pub open spec fn placed_vertices(points: Seq<SerializablePoint>, transform: Image) -> Seq<Vertex> {
    points.map_values(|raw: SerializablePoint| placed_vertex(raw, transform))
}

/// the point halfway from one point to another, and how far it is from the line segment between them
/// on the map
pub open spec fn tween(last: Vertex, next: Vertex, guide: Guide) -> (Vertex, Number) {
    let vertex = placed_vertex((guide.middle)(last.raw, next.raw), guide.transform);
    (vertex, (guide.metric)(last.transformed, next.transformed, vertex.transformed))
}

/// what comes of so many inspections, one after another
pub open spec fn true_answers(curve: CurveView, guide: Guide, steps: nat) -> Seq<(Vertex, Number)>
    decreases steps,
{
    if steps == 0 {
        Seq::empty()
    } else {
        let before = true_answers(curve, guide, (steps - 1) as nat);
        let now = inspected_all(curve, before);
        before.push(tween(now.finished.last(), now.pending.first(), guide))
    }
}

/// the curve after so many inspections, or as many as it takes
pub open spec fn followed(curve: CurveView, guide: Guide, steps: nat) -> CurveView {
    inspected_all(curve, true_answers(curve, guide, steps))
}

proof fn lemma_followed_step(curve: CurveView, guide: Guide, steps: nat)
    ensures
        followed(curve, guide, steps + 1) == ({
            let now = followed(curve, guide, steps);
            if now.pending.len() > 0 {
                let (vertex, distance) = tween(now.finished.last(), now.pending.first(), guide);
                now.inspected(vertex, distance)
            } else {
                now
            }
        }),
{
    let before = true_answers(curve, guide, steps);
    let all = true_answers(curve, guide, steps + 1);
    assert(all.drop_last() =~= before);
}

/// once nothing is pending, more inspections change nothing
proof fn lemma_followed_to_the_end(curve: CurveView, guide: Guide, steps: nat, more: nat)
    requires
        steps <= more,
        followed(curve, guide, steps).pending.len() == 0,
    ensures
        followed(curve, guide, more) == followed(curve, guide, steps),
    decreases more - steps,
{
    if steps < more {
        lemma_followed_to_the_end(curve, guide, steps, (more - 1) as nat);
        lemma_followed_step(curve, guide, (more - 1) as nat);
    }
}

/// whether the functions compute what it takes to put a curve on the map
pub open spec fn is_guided<A, B, D>(transform: A, middle: B, distance: D, guide: Guide) -> bool where
    A: Fn(SerializablePoint) -> SerializablePoint,
    B: Fn(SerializablePoint, SerializablePoint) -> SerializablePoint,
    D: Fn(SerializablePoint, SerializablePoint, SerializablePoint) -> Number,
 {
    &&& puts(transform, guide.transform)
    &&& halves(middle, guide.middle)
    &&& computes(distance, guide.metric)
}

/// put a polyline on the map, with as many points as it takes to keep it smooth, unless that takes
/// more inspections than there is patience for
pub fn apply_to_curve<A, B, D>(
    input: &Vec<SerializablePoint>,
    affine: bool,
    tolerance: Number,
    transform: &A,
    middle: &B,
    distance: &D,
    patience: u64,
) -> (r: Option<Vec<SerializablePoint>>) where
    A: Fn(SerializablePoint) -> SerializablePoint,
    B: Fn(SerializablePoint, SerializablePoint) -> SerializablePoint,
    D: Fn(SerializablePoint, SerializablePoint, SerializablePoint) -> Number,

    requires
        forall|p: SerializablePoint| #[trigger] call_requires(*transform, (p,)),
        forall|p: SerializablePoint, q: SerializablePoint| #[trigger]
            call_requires(*middle, (p, q)),
        forall|a: SerializablePoint, b: SerializablePoint, p: SerializablePoint| #[trigger]
            call_requires(*distance, (a, b, p)),
    ensures
        forall|guide: Guide| #[trigger]
            is_guided(*transform, *middle, *distance, guide) ==> {
                let start = fresh(placed_vertices(input@, guide.transform), affine, tolerance);
                let curve = followed(start, guide, patience as nat);
                match r {
                    Some(points) => curve.pending.len() == 0 && points@
                        == curve.finished.map_values(|vertex: Vertex| vertex.transformed),
                    None => curve.pending.len() > 0,
                }
            },
{
    // first, do the transform to all the points in the input
    let mut vertices: Vec<Vertex> = Vec::new();
    for i in 0..input.len()
        invariant
            forall|p: SerializablePoint| #[trigger] call_requires(*transform, (p,)),
            vertices@.len() == i,
            forall|t: Image| #[trigger]
                puts(*transform, t) ==> vertices@ == placed_vertices(input@.take(i as int), t),
    {
        let raw = input[i];
        let ghost before = vertices@;
        vertices.push(Vertex { raw, transformed: transform(raw) });
        assert forall|t: Image| #[trigger] puts(*transform, t) implies vertices@
            == placed_vertices(input@.take(i + 1), t) by {
            assert(before == placed_vertices(input@.take(i as int), t));
            assert(vertices@ =~= placed_vertices(input@.take(i + 1), t));
        }
    }
    assert(input@.take(input@.len() as int) =~= input@);
    // then inspect them and put them in the finished list one at a time
    let mut curve = Curve::new(&vertices, affine, tolerance);
    let ghost start = curve@;
    let mut left: u64 = patience;
    assert forall|guide: Guide| #[trigger]
        is_guided(*transform, *middle, *distance, guide) implies curve@ == followed(
        start,
        guide,
        0,
    ) by {
        assert(true_answers(start, guide, 0) =~= Seq::empty());
    }
    while left > 0
        invariant
            forall|p: SerializablePoint| #[trigger] call_requires(*transform, (p,)),
            forall|p: SerializablePoint, q: SerializablePoint| #[trigger]
                call_requires(*middle, (p, q)),
            forall|a: SerializablePoint, b: SerializablePoint, p: SerializablePoint| #[trigger]
                call_requires(*distance, (a, b, p)),
            left <= patience,
            curve@.is_under_way(),
            forall|guide: Guide| #[trigger]
                is_guided(*transform, *middle, *distance, guide) ==> start == fresh(
                    placed_vertices(input@, guide.transform),
                    affine,
                    tolerance,
                ),
            forall|guide: Guide| #[trigger]
                is_guided(*transform, *middle, *distance, guide) ==> curve@ == followed(
                    start,
                    guide,
                    (patience - left) as nat,
                ),
        decreases left,
    {
        let (last, next) = match curve.next() {
            Some(pair) => pair,
            None => {
                assert forall|guide: Guide| #[trigger]
                    is_guided(*transform, *middle, *distance, guide) implies curve@ == followed(
                    start,
                    guide,
                    patience as nat,
                ) by {
                    lemma_followed_to_the_end(
                        start,
                        guide,
                        (patience - left) as nat,
                        patience as nat,
                    );
                }
                return Some(curve.finish());
            },
        };
        // look at the point between the last finished point and the next pending point
        let raw = middle(last.raw, next.raw);
        let transformed = transform(raw);
        // see how far it is from the line segment between its neighbors
        let d = distance(last.transformed, next.transformed, transformed);
        let ghost before = curve@;
        curve.inspect(Vertex { raw, transformed }, d);
        assert forall|guide: Guide| #[trigger]
            is_guided(*transform, *middle, *distance, guide) implies curve@ == followed(
            start,
            guide,
            (patience - left + 1) as nat,
        ) by {
            lemma_followed_step(start, guide, (patience - left) as nat);
        }
        left = left - 1;
    }
    if curve.next().is_none() {
        Some(curve.finish())
    } else {
        None
    }
}

/// how far the point halfway between two others is from the line segment between them on the map
pub open spec fn bend(guide: Guide) -> Bend {
    |last: Vertex, next: Vertex| tween(last, next, guide).1
}

proof fn lemma_true_answers(
    vertices: Seq<Vertex>,
    affine: bool,
    tolerance: Number,
    guide: Guide,
    steps: nat,
)
    requires
        forall|i: int|
            0 <= i < vertices.len() ==> is_image(#[trigger] vertices[i], guide.transform),
    ensures
        ({
            let start = fresh(vertices, affine, tolerance);
            let answers = true_answers(start, guide, steps);
            &&& are_true(start, answers, bend(guide))
            &&& are_halfway(start, answers, guide.middle)
            &&& forall|i: int|
                0 <= i < answers.len() ==> is_image((#[trigger] answers[i]).0, guide.transform)
        }),
    decreases steps,
{
    if steps > 0 {
        lemma_true_answers(vertices, affine, tolerance, guide, (steps - 1) as nat);
        let start = fresh(vertices, affine, tolerance);
        let before = true_answers(start, guide, (steps - 1) as nat);
        assert(true_answers(start, guide, steps).drop_last() =~= before);
    }
}

/// when a curve is done, its points are the images of points along the polyline that it started as:
/// the points of that polyline, in order, from the first to the last, and others halfway between two
/// neighbors.  and between each two of them, the point halfway is within the tolerance of the line
/// segment between them on the map.
pub proof fn law_curves_follow_their_polylines(
    input: Seq<SerializablePoint>,
    tolerance: Number,
    guide: Guide,
    steps: nat,
)
    requires
        followed(
            fresh(placed_vertices(input, guide.transform), false, tolerance),
            guide,
            steps,
        ).pending.len() == 0,
    ensures
        ({
            let vertices = placed_vertices(input, guide.transform);
            let start = fresh(vertices, false, tolerance);
            let finished = followed(start, guide, steps).finished;
            let answers = true_answers(start, guide, steps);
            &&& finished.map_values(|vertex: Vertex| vertex.transformed) == raw_points(
                finished,
            ).map_values(|raw: SerializablePoint| (guide.transform)(raw))
            &&& raw_points(finished) == refined(input, places(start, answers), guide.middle)
            &&& is_part_of(vertices, finished)
            &&& input.len() > 0 ==> finished.len() > 0 && finished.first().raw == input.first()
                && finished.last().raw == input.last()
            &&& is_smooth(finished, tolerance, bend(guide))
            &&& forall|i: int, j: int|
                0 <= i && j == i + 1 && j < finished.len() ==> (guide.metric)(
                    (#[trigger] finished[i]).transformed,
                    (#[trigger] finished[j]).transformed,
                    (guide.transform)((guide.middle)(finished[i].raw, finished[j].raw)),
                ).below(tolerance)
        }),
{
    let vertices = placed_vertices(input, guide.transform);
    let start = fresh(vertices, false, tolerance);
    let answers = true_answers(start, guide, steps);
    let curve = followed(start, guide, steps);
    lemma_true_answers(vertices, false, tolerance, guide, steps);
    law_no_point_is_lost(vertices, false, tolerance, answers);
    law_finished_curves_are_smooth(vertices, tolerance, answers, bend(guide));
    law_curves_are_refined_polylines(vertices, false, tolerance, answers, guide.middle);
    law_points_are_where_the_transform_puts_them(
        vertices,
        false,
        tolerance,
        answers,
        guide.transform,
    );
    assert(curve.whole() =~= curve.finished);
    assert(raw_points(vertices) =~= input);
    let apply = guide.transform;
    assert(curve.finished.map_values(|vertex: Vertex| apply(vertex.raw)) =~= raw_points(
        curve.finished,
    ).map_values(|raw: SerializablePoint| (guide.transform)(raw)));
}

/// the next point does just if the one halfway to it is within the tolerance of the line segment to it;
/// where lines stay straight, that one is on the segment.  otherwise the one halfway is put in before the
/// next, and nothing else changes.
pub proof fn law_points_are_put_in_only_where_it_takes_them(
    curve: CurveView,
    tween: Vertex,
    distance: Number,
)
    requires
        curve.pending.len() > 0,
    ensures
        ({
            let after = curve.inspected(tween, distance);
            let does = !curve.tolerance.is_nan() && if curve.affine {
                0 < curve.tolerance.value()
            } else {
                !distance.is_nan() && distance.value() < curve.tolerance.value()
            };
            &&& does ==> after.finished == curve.finished.push(curve.pending[0]) && after.pending
                == curve.pending.subrange(1, curve.pending.len() as int)
            &&& !does ==> after.finished == curve.finished && after.pending == seq![tween]
                + curve.pending
            &&& after.affine == curve.affine && after.tolerance == curve.tolerance
        }),
{
    crate::number::law_numbers_are_compared_by_what_they_stand_for(
        Number { bits: 0 },
        curve.tolerance,
    );
    assert(curve.pending.drop_first() =~= curve.pending.subrange(1, curve.pending.len() as int));
}

/// of a fresh curve, only the first point does from the start, and all the others are to be inspected in
/// order
pub proof fn law_curves_start_with_their_first_point(
    vertices: Seq<Vertex>,
    affine: bool,
    tolerance: Number,
)
    ensures
        ({
            let curve = fresh(vertices, affine, tolerance);
            &&& curve.affine == affine && curve.tolerance == tolerance
            &&& curve.finished + curve.pending == vertices
            &&& vertices.len() > 0 ==> curve.finished.len() == 1
        }),
{
    let curve = fresh(vertices, affine, tolerance);
    assert(curve.finished + curve.pending =~= vertices);
}

} // verus!
