//! Downsampling curves.

use crate::geometry::SerializablePoint;
use crate::number::Number;
use vstd::prelude::*;
use vstd::slice::slice_subrange;

verus! {

/// how far a point (the last of the three) is from the line segment between two others
pub type Metric = spec_fn(SerializablePoint, SerializablePoint, SerializablePoint) -> Number;

/// the greatest of the distances before `n` and the first place where it is, or zero and the first
/// place of all if none of them is positive
pub open spec fn peak(distances: Seq<Number>, n: int) -> (Number, int)
    decreases n,
{
    if n <= 0 {
        (Number { bits: 0 }, 0)
    } else {
        let (most, place) = peak(distances, n - 1);
        if most.below(distances[n - 1]) {
            (distances[n - 1], n - 1)
        } else {
            (most, place)
        }
    }
}

/// how far each point of the path is from the line segment between its ends
pub open spec fn deviations(path: Seq<SerializablePoint>, metric: Metric) -> Seq<Number> {
    path.map_values(|point: SerializablePoint| metric(path.first(), path.last(), point))
}

/// the place where the path is farthest from the line segment between its ends, if that is farther
/// than the tolerance
pub open spec fn split(path: Seq<SerializablePoint>, tolerance: Number, metric: Metric) -> Option<
    int,
> {
    let (most, place) = peak(deviations(path, metric), path.len() as int);
    if tolerance.below(most) {
        Some(place)
    } else {
        None
    }
}

/// the path with only as many points as it takes to stay within the tolerance: of each part of it
/// that does, only the ends are left, and where one part ends and the next begins there is one
/// point.  there is no such path if a point at an end is supposed to be farther from the ends than
/// all others, for no part is ever short enough then.
pub open spec fn decimated(
    path: Seq<SerializablePoint>,
    tolerance: Number,
    metric: Metric,
) -> Option<Seq<SerializablePoint>>
    decreases path.len(),
{
    if path.len() == 0 {
        None
    } else {
        match split(path, tolerance, metric) {
            Some(place) => if 0 < place < path.len() - 1 {
                match (
                    decimated(path.take(place + 1), tolerance, metric),
                    decimated(path.skip(place), tolerance, metric),
                ) {
                    (Some(head), Some(tail)) => Some(head.drop_last() + tail),
                    _ => None,
                }
            } else {
                None
            },
            None => if path.len() == 1 {
                Some(path)
            } else {
                Some(seq![path.first(), path.last()])
            },
        }
    }
}

/// whether the function computes the metric
pub open spec fn computes<
    F: Fn(SerializablePoint, SerializablePoint, SerializablePoint) -> Number,
>(distance: F, metric: Metric) -> bool {
    &&& forall|a: SerializablePoint, b: SerializablePoint, p: SerializablePoint|
        #[trigger] call_requires(distance, (a, b, p))
    &&& forall|a: SerializablePoint, b: SerializablePoint, p: SerializablePoint, d: Number|
        #[trigger] call_ensures(distance, (a, b, p), d) ==> d == metric(a, b, p)
}

/// use the Ramer–Douglas–Peucker algorithm to downsample this curve
pub fn decimate<F: Fn(SerializablePoint, SerializablePoint, SerializablePoint) -> Number>(
    path: &[SerializablePoint],
    tolerance: Number,
    distance: &F,
) -> (r: Option<Vec<SerializablePoint>>)
    requires
        path@.len() > 0,
        forall|a: SerializablePoint, b: SerializablePoint, p: SerializablePoint|
            #[trigger] call_requires(*distance, (a, b, p)),
    ensures
        forall|metric: Metric| #[trigger]
            computes(*distance, metric) ==> match r {
                Some(points) => decimated(path@, tolerance, metric) == Some(points@),
                None => decimated(path@, tolerance, metric) is None,
            },
        r matches Some(points) ==> {
            &&& 1 <= points@.len() <= path@.len()
            &&& points@.first() == path@.first()
            &&& points@.last() == path@.last()
        },
    decreases path@.len(),
{
    let start = path[0];
    let end = path[path.len() - 1];
    let mut most = Number { bits: 0 };
    let mut place: usize = 0;
    for i in 0..path.len()
        invariant
            path@.len() > 0,
            start == path@.first(),
            end == path@.last(),
            place < path@.len(),
            forall|a: SerializablePoint, b: SerializablePoint, p: SerializablePoint|
                #[trigger] call_requires(*distance, (a, b, p)),
            forall|metric: Metric| #[trigger]
                computes(*distance, metric) ==> peak(deviations(path@, metric), i as int) == (
                    most,
                    place as int,
                ),
    {
        let d = distance(start, end, path[i]);
        assert forall|metric: Metric| #[trigger] computes(*distance, metric) implies deviations(
            path@,
            metric,
        )[i as int] == d by {}
        if most.less_than(d) {
            most = d;
            place = i;
        }
    }
    if tolerance.less_than(most) {
        if place == 0 || place == path.len() - 1 {
            return None;
        }
        let head = decimate(slice_subrange(path, 0, place + 1), tolerance, distance);
        let tail = decimate(slice_subrange(path, place, path.len()), tolerance, distance);
        assert(path@.subrange(0, place + 1) =~= path@.take(place + 1));
        assert(path@.subrange(place as int, path@.len() as int) =~= path@.skip(place as int));
        match (head, tail) {
            (Some(mut head), Some(mut tail)) => {
                // the tail starts where the head ends
                let ghost whole = head@;
                head.pop();
                assert(head@ =~= whole.drop_last());
                assert(whole.len() == 1 ==> whole.first() == whole.last());
                head.append(&mut tail);
                Some(head)
            },
            _ => None,
        }
    } else {
        let mut ends: Vec<SerializablePoint> = Vec::new();
        ends.push(start);
        if path.len() > 1 {
            ends.push(end);
            assert(ends@ =~= seq![start, end]);
        } else {
            assert(ends@ =~= path@);
        }
        Some(ends)
    }
}

/// the places of the points that are left
pub open spec fn cuts(path: Seq<SerializablePoint>, tolerance: Number, metric: Metric) -> Seq<int>
    decreases path.len(),
{
    match split(path, tolerance, metric) {
        Some(place) => if 0 < place < path.len() - 1 {
            cuts(path.take(place + 1), tolerance, metric).drop_last() + cuts(
                path.skip(place),
                tolerance,
                metric,
            ).map_values(|cut: int| place + cut)
        } else {
            seq![0, path.len() - 1]
        },
        None => if path.len() == 1 {
            seq![0]
        } else {
            seq![0, path.len() - 1]
        },
    }
}

/// the points at these places
pub open spec fn points_at(path: Seq<SerializablePoint>, cuts: Seq<int>) -> Seq<SerializablePoint> {
    cuts.map_values(|cut: int| path[cut])
}

/// whether the places go from the start of the path to its end in order, and none comes twice
pub open spec fn is_in_order(cuts: Seq<int>, n: nat) -> bool {
    &&& cuts.len() >= 1
    &&& cuts.first() == 0
    &&& cuts.last() == n - 1
    &&& forall|i: int, j: int| 0 <= i < j < cuts.len() ==> #[trigger] cuts[i] < #[trigger] cuts[j]
}

/// whether no point of the path from one place to another is farther than the tolerance from the
/// line segment between the two
pub open spec fn part_stays_within(
    path: Seq<SerializablePoint>,
    from: int,
    to: int,
    tolerance: Number,
    metric: Metric,
) -> bool {
    forall|i: int|
        from <= i <= to ==> !tolerance.below(metric(path[from], path[to], #[trigger] path[i]))
}

/// whether each part of the path from one cut to the next stays within the tolerance
pub open spec fn stays_within(
    path: Seq<SerializablePoint>,
    cuts: Seq<int>,
    tolerance: Number,
    metric: Metric,
) -> bool {
    forall|j: int, k: int|
        0 <= j && k == j + 1 && k < cuts.len() ==> part_stays_within(
            path,
            #[trigger] cuts[j],
            #[trigger] cuts[k],
            tolerance,
            metric,
        )
}

proof fn lemma_peak(distances: Seq<Number>, n: int)
    requires
        0 <= n <= distances.len(),
    ensures
        !peak(distances, n).0.is_nan(),
        forall|i: int| 0 <= i < n ==> !peak(distances, n).0.below(#[trigger] distances[i]),
        peak(distances, n).0 == (Number { bits: 0 }) || {
            let (most, place) = peak(distances, n);
            0 <= place < n && most == distances[place]
        },
    decreases n,
{
    if n > 0 {
        lemma_peak(distances, n - 1);
    }
}

/// there are no more places in order than there are places
proof fn lemma_in_order_is_short(cuts: Seq<int>, n: nat)
    requires
        is_in_order(cuts, n),
    ensures
        cuts.len() <= n,
        forall|i: int| 0 <= i < cuts.len() ==> 0 <= #[trigger] cuts[i] < n,
    decreases cuts.len(),
{
    assert forall|i: int| 0 <= i < cuts.len() implies 0 <= #[trigger] cuts[i] < n by {
        if i > 0 {
            assert(cuts[0] < cuts[i]);
        }
        if i < cuts.len() - 1 {
            assert(cuts[i] < cuts[cuts.len() - 1]);
        }
    }
    if cuts.len() > 1 {
        let rest = cuts.drop_last();
        assert(cuts[cuts.len() - 2] < cuts[cuts.len() - 1]);
        assert forall|i: int, j: int| 0 <= i < j < rest.len() implies #[trigger] rest[i]
            < #[trigger] rest[j] by {
            assert(rest[i] == cuts[i] && rest[j] == cuts[j]);
        }
        lemma_in_order_is_short(rest, (rest.last() + 1) as nat);
    }
}

/// the cuts of two paths that have a point in common
proof fn lemma_cuts_concat(
    path: Seq<SerializablePoint>,
    place: int,
    first: Seq<int>,
    last: Seq<int>,
    tolerance: Number,
    metric: Metric,
)
    requires
        0 <= place < path.len(),
        is_in_order(first, (place + 1) as nat),
        is_in_order(last, (path.len() - place) as nat),
        stays_within(path.take(place + 1), first, tolerance, metric),
        stays_within(path.skip(place), last, tolerance, metric),
    ensures
        ({
            let all = first.drop_last() + last.map_values(|cut: int| place + cut);
            &&& is_in_order(all, path.len())
            &&& stays_within(path, all, tolerance, metric)
            &&& points_at(path, all) == points_at(path.take(place + 1), first).drop_last()
                + points_at(path.skip(place), last)
        }),
{
    let all = first.drop_last() + last.map_values(|cut: int| place + cut);
    let (head, tail) = (path.take(place + 1), path.skip(place));
    let k = first.len() - 1;
    lemma_in_order_is_short(first, (place + 1) as nat);
    lemma_in_order_is_short(last, (path.len() - place) as nat);
    assert forall|i: int, j: int| 0 <= i < j < all.len() implies #[trigger] all[i]
        < #[trigger] all[j] by {
        if i < k && j >= k {
            assert(first[i] < first[k]);
            assert(last[j - k] >= 0);
        } else if j < k {
            assert(first[i] < first[j]);
        } else {
            assert(last[i - k] < last[j - k]);
        }
    }
    assert(all.first() == 0);
    assert forall|j: int, j_next: int|
        0 <= j && j_next == j + 1 && j_next < all.len() implies part_stays_within(
        path,
        #[trigger] all[j],
        #[trigger] all[j_next],
        tolerance,
        metric,
    ) by {
        let (from, to) = (all[j], all[j_next]);
        if j < k {
            assert(first[j] < first[j + 1]);
            assert(from == first[j] && to == first[j + 1]);
            assert(part_stays_within(head, first[j], first[j + 1], tolerance, metric));
            assert forall|i: int| from <= i <= to implies !tolerance.below(
                metric(path[from], path[to], #[trigger] path[i]),
            ) by {
                assert(head[i] == path[i]);
            }
        } else {
            let l = j - k;
            assert(last[l] < last[l + 1]);
            assert(from == place + last[l] && to == place + last[l + 1]);
            assert(part_stays_within(tail, last[l], last[l + 1], tolerance, metric));
            assert forall|i: int| from <= i <= to implies !tolerance.below(
                metric(path[from], path[to], #[trigger] path[i]),
            ) by {
                assert(tail[i - place] == path[i]);
            }
        }
    }
    assert(points_at(path, all) =~= points_at(head, first).drop_last() + points_at(tail, last)) by {
        assert forall|i: int| 0 <= i < all.len() implies #[trigger] path[all[i]] == (points_at(
            head,
            first,
        ).drop_last() + points_at(tail, last))[i] by {
            if i < k {
                assert(head[first[i]] == path[first[i]]);
            } else {
                assert(tail[last[i - k]] == path[place + last[i - k]]);
            }
        }
    }
}

/// the points that are left of a path are points of it, in order and each at most once, from its
/// first to its last, and no point between two of them was farther than the tolerance from the
/// line segment that is left.  so there are never more points than there were.
pub proof fn law_decimation_stays_within_tolerance(
    path: Seq<SerializablePoint>,
    tolerance: Number,
    metric: Metric,
)
    requires
        decimated(path, tolerance, metric) is Some,
    ensures
        is_in_order(cuts(path, tolerance, metric), path.len()),
        decimated(path, tolerance, metric) == Some(
            points_at(path, cuts(path, tolerance, metric)),
        ),
        decimated(path, tolerance, metric)->0.len() <= path.len(),
        stays_within(path, cuts(path, tolerance, metric), tolerance, metric),
    decreases path.len(),
{
    let n = path.len() as int;
    let all = cuts(path, tolerance, metric);
    match split(path, tolerance, metric) {
        Some(place) => {
            let (head, tail) = (path.take(place + 1), path.skip(place));
            law_decimation_stays_within_tolerance(head, tolerance, metric);
            law_decimation_stays_within_tolerance(tail, tolerance, metric);
            let first = cuts(head, tolerance, metric);
            let last = cuts(tail, tolerance, metric);
            lemma_cuts_concat(path, place, first, last, tolerance, metric);
        },
        None => {
            lemma_peak(deviations(path, metric), n);
            if n == 1 {
                assert(points_at(path, all) =~= path);
            } else {
                assert(points_at(path, all) =~= seq![path.first(), path.last()]);
            }
            assert forall|i: int| 0 <= i <= n - 1 implies !tolerance.below(
                metric(path[0], path[n - 1], #[trigger] path[i]),
            ) by {
                assert(deviations(path, metric)[i] == metric(path.first(), path.last(), path[i]));
            }
        },
    }
    lemma_in_order_is_short(all, path.len());
}

/// whether the ends of a line segment are at no distance from it
pub open spec fn is_zero_at_ends(metric: Metric) -> bool {
    &&& forall|a: SerializablePoint, b: SerializablePoint|
        !(Number { bits: 0 }).below(#[trigger] metric(a, b, a))
    &&& forall|a: SerializablePoint, b: SerializablePoint|
        !(Number { bits: 0 }).below(#[trigger] metric(a, b, b))
}

/// any path can be decimated, unless the tolerance is negative or the ends of a line segment are
/// supposed to be some way from it
pub proof fn law_paths_can_be_decimated(
    path: Seq<SerializablePoint>,
    tolerance: Number,
    metric: Metric,
)
    requires
        path.len() > 0,
        !tolerance.below(Number { bits: 0 }),
        is_zero_at_ends(metric),
    ensures
        decimated(path, tolerance, metric) is Some,
    decreases path.len(),
{
    if let Some(place) = split(path, tolerance, metric) {
        let all = deviations(path, metric);
        lemma_peak(all, path.len() as int);
        assert((Number { bits: 0 }).below(all[place]));
        assert(all.first() == metric(path.first(), path.last(), path.first()));
        assert(all.last() == metric(path.first(), path.last(), path.last()));
        law_paths_can_be_decimated(path.take(place + 1), tolerance, metric);
        law_paths_can_be_decimated(path.skip(place), tolerance, metric);
    }
}

/// whether the path stays within the tolerance of the line segment between its ends
pub open spec fn is_straight(
    path: Seq<SerializablePoint>,
    tolerance: Number,
    metric: Metric,
) -> bool {
    forall|i: int|
        0 <= i < path.len() ==> !tolerance.below(
            metric(path[0], path[path.len() - 1], #[trigger] path[i]),
        )
}

/// whether this is the first of the points that are farthest from the line segment between the ends,
/// and farther than zero
pub open spec fn is_farthest(path: Seq<SerializablePoint>, metric: Metric, place: int) -> bool {
    let most = metric(path[0], path[path.len() - 1], path[place]);
    &&& 0 <= place < path.len()
    &&& (Number { bits: 0 }).below(most)
    &&& forall|i: int|
        0 <= i < path.len() ==> !most.below(
            metric(path[0], path[path.len() - 1], #[trigger] path[i]),
        )
    &&& forall|i: int|
        0 <= i < place ==> metric(path[0], path[path.len() - 1], #[trigger] path[i]).below(most)
            || metric(path[0], path[path.len() - 1], path[i]).is_nan()
}

/// of a path that stays within the tolerance of the line segment between its ends, nothing but the
/// ends is left.  any other is split at the point that is farthest from that line segment, and each
/// part is decimated on its own.
pub proof fn law_paths_are_split_where_they_are_farthest(
    path: Seq<SerializablePoint>,
    tolerance: Number,
    metric: Metric,
)
    requires
        path.len() > 0,
        !tolerance.below(Number { bits: 0 }),
    ensures
        is_straight(path, tolerance, metric) ==> decimated(path, tolerance, metric) == Some(
            if path.len() == 1 {
                path
            } else {
                seq![path[0], path[path.len() - 1]]
            },
        ),
        forall|place: int|
            0 < place < path.len() - 1 && #[trigger] is_farthest(path, metric, place)
                && tolerance.below(metric(path[0], path[path.len() - 1], path[place])) ==> {
                let head = decimated(path.subrange(0, place + 1), tolerance, metric);
                let tail = decimated(path.subrange(place, path.len() as int), tolerance, metric);
                match decimated(path, tolerance, metric) {
                    Some(points) => head is Some && tail is Some && points == head->0.drop_last()
                        + tail->0,
                    None => head is None || tail is None,
                }
            },
{
    let all = deviations(path, metric);
    let n = path.len() as int;
    lemma_peak(all, n);
    assert forall|i: int| 0 <= i < n implies #[trigger] all[i] == metric(
        path[0],
        path[n - 1],
        path[i],
    ) by {}
    let (most, found) = peak(all, n);
    if is_straight(path, tolerance, metric) {
        if tolerance.below(most) {
            assert(most == all[found]);
            assert(path[found] == path[found]);
        }
    }
    assert forall|place: int|
        0 < place < path.len() - 1 && #[trigger] is_farthest(path, metric, place)
            && tolerance.below(metric(path[0], path[path.len() - 1], path[place])) implies {
        let head = decimated(path.subrange(0, place + 1), tolerance, metric);
        let tail = decimated(path.subrange(place, path.len() as int), tolerance, metric);
        match decimated(path, tolerance, metric) {
            Some(points) => head is Some && tail is Some && points == head->0.drop_last()
                + tail->0,
            None => head is None || tail is None,
        }
    } by {
        lemma_peak_is(all, n, place);
        assert(path.subrange(0, place + 1) =~= path.take(place + 1));
        assert(path.subrange(place, path.len() as int) =~= path.skip(place));
        assert(split(path, tolerance, metric) == Some(place));
    }
}

proof fn lemma_peak_is(distances: Seq<Number>, n: int, place: int)
    requires
        0 <= place < n <= distances.len(),
        (Number { bits: 0 }).below(distances[place]),
        forall|i: int| 0 <= i < n ==> !distances[place].below(#[trigger] distances[i]),
        forall|i: int|
            0 <= i < place ==> (#[trigger] distances[i]).below(distances[place])
                || distances[i].is_nan(),
    ensures
        peak(distances, n) == (distances[place], place),
    decreases n,
{
    if n - 1 == place {
        lemma_peak(distances, n - 1);
        let (most, found) = peak(distances, n - 1);
        if most != (Number { bits: 0 }) {
            assert(distances[found].below(distances[place]) || distances[found].is_nan());
        }
    } else {
        lemma_peak_is(distances, n - 1, place);
        assert(!distances[place].below(distances[n - 1]));
    }
}

} // verus!
