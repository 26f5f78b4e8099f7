use mapmaker::curve::{apply_to_curve, Curve, Vertex};
use mapmaker::geometry::SerializablePoint;
use mapmaker::number::Number;

type Pair = (f64, f64);

fn number(x: f64) -> Number {
    Number { bits: x.to_bits() }
}

fn point((x, y): Pair) -> SerializablePoint {
    SerializablePoint { x: number(x), y: number(y) }
}

fn pair(point: &SerializablePoint) -> Pair {
    (f64::from_bits(point.x.bits), f64::from_bits(point.y.bits))
}

fn bent((x, y): Pair) -> Pair {
    (x, y + x * x)
}

fn straight((x, y): Pair) -> Pair {
    (2. * x + y, -y)
}

fn segment_distance(start: Pair, end: Pair, point: Pair) -> f64 {
    let (dx, dy) = (end.0 - start.0, end.1 - start.1);
    let length2 = dx * dx + dy * dy;
    let t = if length2 > 0. {
        (((point.0 - start.0) * dx + (point.1 - start.1) * dy) / length2).clamp(0., 1.)
    } else {
        0.
    };
    f64::hypot(point.0 - start.0 - t * dx, point.1 - start.1 - t * dy)
}

fn vertex(raw: Pair, transform: fn(Pair) -> Pair) -> Vertex {
    Vertex { raw: point(raw), transformed: point(transform(raw)) }
}

fn midpoint(a: Pair, b: Pair) -> Pair {
    ((a.0 + b.0) / 2., (a.1 + b.1) / 2.)
}

fn run(path: &[Pair], transform: fn(Pair) -> Pair, affine: bool, tolerance: f64) -> Vec<Pair> {
    let vertices: Vec<Vertex> = path.iter().map(|&raw| vertex(raw, transform)).collect();
    let mut curve = Curve::new(&vertices, affine, number(tolerance));
    while let Some((last, next)) = curve.next() {
        let tween = vertex(midpoint(pair(&last.raw), pair(&next.raw)), transform);
        let distance = segment_distance(
            pair(&last.transformed),
            pair(&next.transformed),
            pair(&tween.transformed),
        );
        curve.inspect(tween, number(distance));
    }
    curve.finish().iter().map(pair).collect()
}

/// the same by recursion
fn refined(start: Pair, end: Pair, transform: fn(Pair) -> Pair, tolerance: f64) -> Vec<Pair> {
    let middle = midpoint(start, end);
    if segment_distance(transform(start), transform(end), transform(middle)) < tolerance {
        vec![transform(end)]
    } else {
        let mut all = refined(start, middle, transform, tolerance);
        all.extend(refined(middle, end, transform, tolerance));
        all
    }
}

#[test]
fn bent_curves_are_refined() {
    let path = [(0., 0.), (4., 0.), (4., 1.), (-2., 3.)];
    for tolerance in [5., 1., 0.1, 0.003] {
        let mut expected = vec![bent(path[0])];
        for i in 1..path.len() {
            expected.extend(refined(path[i - 1], path[i], bent, tolerance));
        }
        let result = run(&path, bent, false, tolerance);
        assert_eq!(result, expected);
        // no point is lost
        let mut left = result.iter();
        for &raw in &path {
            assert!(left.any(|&found| found == bent(raw)));
        }
    }
    assert_eq!(run(&path[..2], bent, false, 0.9), vec![(0., 0.), (2., 4.), (4., 16.)]);
}

#[test]
fn straight_lines_stay_as_they_are() {
    let path = [(0., 0.), (4., 0.), (4., 1.), (-2., 3.)];
    let expected: Vec<Pair> = path.iter().map(|&raw| straight(raw)).collect();
    assert_eq!(run(&path, straight, true, 0.1), expected);
    // the distance doesn't matter then
    let vertices = vec![vertex(path[0], straight), vertex(path[1], straight)];
    let mut curve = Curve::new(&vertices, true, number(0.1));
    curve.inspect(vertex(path[2], straight), number(1e9));
    assert!(curve.next().is_none());
    assert_eq!(curve.finish().len(), 2);
}

#[test]
fn short_curves_need_no_inspection() {
    assert_eq!(run(&[], bent, false, 0.1), vec![]);
    assert_eq!(run(&[(3., 1.)], bent, false, 0.1), vec![(3., 10.)]);
}

#[test]
fn curves_are_refined_where_they_are_too_far_off() {
    let vertices = vec![vertex((0., 0.), bent), vertex((4., 0.), bent)];
    let tween = vertex((2., 0.), bent);
    for (distance, done) in [(0.05, true), (0.1, false), (0.2, false), (f64::NAN, false)] {
        let mut curve = Curve::new(&vertices, false, number(0.1));
        assert_eq!(curve.next(), Some((vertices[0], vertices[1])));
        curve.inspect(tween, number(distance));
        assert_eq!(curve.next().is_none(), done);
        if !done {
            assert_eq!(curve.next(), Some((vertices[0], tween)));
        }
    }
}

/// a point whose raw coordinates can be told from where it is
fn lifted((x, y): Pair) -> Pair {
    (x, y + 100. * x * x)
}

#[test]
fn points_are_where_the_transform_puts_them() {
    let path = [(0., 0.), (4., 0.), (4., 1.), (-2., 3.)];
    let result = run(&path, lifted, false, 0.01);
    assert!(result.len() > 2 * path.len());
    let raw: Vec<Pair> = result.iter().map(|&(x, y)| (x, y - 100. * x * x)).collect();
    // every point is on the polyline, and they are in order
    let mut k = 1;
    for &point in &raw {
        while segment_distance(path[k - 1], path[k], point) > 1e-9 {
            k += 1;
        }
    }
    assert_eq!(k, 3);
    for (point, image) in raw.iter().zip(&result) {
        assert_eq!(lifted(*point), *image);
    }
}

fn follow(path: &[Pair], transform: fn(Pair) -> Pair, affine: bool, tolerance: f64, patience: u64) -> Option<Vec<Pair>> {
    let input: Vec<SerializablePoint> = path.iter().map(|&raw| point(raw)).collect();
    let result = apply_to_curve(
        &input,
        affine,
        number(tolerance),
        &|raw: SerializablePoint| point(transform(pair(&raw))),
        &|a: SerializablePoint, b: SerializablePoint| point(midpoint(pair(&a), pair(&b))),
        &|a: SerializablePoint, b: SerializablePoint, p: SerializablePoint| {
            number(segment_distance(pair(&a), pair(&b), pair(&p)))
        },
        patience,
    );
    result.map(|points| points.iter().map(pair).collect())
}

#[test]
fn curves_follow_their_polylines() {
    let path = [(0., 0.), (4., 0.), (4., 1.), (-2., 3.)];
    for tolerance in [5., 1., 0.1, 0.003] {
        let expected = run(&path, bent, false, tolerance);
        assert_eq!(follow(&path, bent, false, tolerance, u64::MAX), Some(expected));
    }
    assert_eq!(follow(&path, straight, true, 0.1, u64::MAX), Some(run(&path, straight, true, 0.1)));
    assert_eq!(follow(&[], bent, false, 0.1, 0), Some(vec![]));
    assert_eq!(follow(&[(3., 1.)], bent, false, 0.1, 0), Some(vec![(3., 10.)]));
}

#[test]
fn there_may_be_too_little_patience() {
    // one inspection finds that the line is too far off, and two more that the halves of it do
    let path = [(0., 0.), (4., 0.)];
    assert_eq!(follow(&path, bent, false, 0.9, 2), None);
    assert_eq!(follow(&path, bent, false, 0.9, 3), Some(vec![(0., 0.), (2., 4.), (4., 16.)]));
    // what is not a number is never close enough
    let nowhere = |_: Pair| (f64::NAN, f64::NAN);
    assert_eq!(follow(&path, nowhere, false, 0.9, 1000), None);
}
