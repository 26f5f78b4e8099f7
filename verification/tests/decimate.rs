use mapmaker::content::Content;
use mapmaker::decimate::decimate;
use mapmaker::geometry::SerializablePoint;
use mapmaker::number::Number;
use mapmaker::thin::decimate_content;

fn number(x: f64) -> Number {
    Number { bits: x.to_bits() }
}

fn points(path: &[(f64, f64)]) -> Vec<SerializablePoint> {
    path.iter().map(|&(x, y)| SerializablePoint { x: number(x), y: number(y) }).collect()
}

fn coordinates(path: &[SerializablePoint]) -> Vec<(f64, f64)> {
    path.iter().map(|point| pair(point)).collect()
}

fn pair(point: &SerializablePoint) -> (f64, f64) {
    (f64::from_bits(point.x.bits), f64::from_bits(point.y.bits))
}

fn segment_distance(start: (f64, f64), end: (f64, f64), point: (f64, f64)) -> f64 {
    let (dx, dy) = (end.0 - start.0, end.1 - start.1);
    let length2 = dx * dx + dy * dy;
    let t = if length2 > 0. {
        (((point.0 - start.0) * dx + (point.1 - start.1) * dy) / length2).clamp(0., 1.)
    } else {
        0.
    };
    f64::hypot(point.0 - start.0 - t * dx, point.1 - start.1 - t * dy)
}

fn distance(a: SerializablePoint, b: SerializablePoint, p: SerializablePoint) -> Number {
    number(segment_distance(pair(&a), pair(&b), pair(&p)))
}

fn expected(path: &[(f64, f64)], tolerance: f64) -> Vec<(f64, f64)> {
    let (start, end) = (path[0], path[path.len() - 1]);
    let mut most = 0.;
    let mut place = 0;
    for i in 0..path.len() {
        let d = segment_distance(start, end, path[i]);
        if d > most {
            most = d;
            place = i;
        }
    }
    if most > tolerance {
        let head = expected(&path[..place + 1], tolerance);
        let tail = expected(&path[place..], tolerance);
        [&head, &tail[1..]].concat()
    } else if path.len() == 1 {
        vec![start]
    } else {
        vec![start, end]
    }
}

#[test]
fn straight_paths_are_replaced_by_their_ends() {
    let path = points(&[(0., 0.), (1., 0.), (2., 0.), (3., 0.)]);
    let result = decimate(&path, number(0.), &distance).unwrap();
    assert_eq!(coordinates(&result), vec![(0., 0.), (3., 0.)]);
}

#[test]
fn corners_are_kept_once() {
    let corner = [(0., 0.), (1., 1.), (2., 0.)];
    let result = decimate(&points(&corner), number(0.5), &distance).unwrap();
    assert_eq!(coordinates(&result), corner);
    let path = points(&[(0., 0.), (1., 0.01), (2., 2.), (3., 0.99), (4., 0.)]);
    let result = decimate(&path, number(0.5), &distance).unwrap();
    assert_eq!(
        coordinates(&result),
        vec![(0., 0.), (1., 0.01), (2., 2.), (4., 0.)]
    );
}

#[test]
fn a_single_point_stays_a_single_point() {
    let result = decimate(&points(&[(7., 8.)]), number(0.1), &distance).unwrap();
    assert_eq!(coordinates(&result), vec![(7., 8.)]);
}

#[test]
fn paths_stay_within_the_tolerance() {
    let path: Vec<(f64, f64)> = (0..200)
        .map(|i| {
            let t = i as f64 * 0.1;
            (t, (1.3 * t).sin() + 0.2 * (7.1 * t).cos())
        })
        .collect();
    for tolerance in [0., 0.01, 0.1, 0.5, 3.] {
        let result = decimate(&points(&path), number(tolerance), &distance).unwrap();
        let result = coordinates(&result);
        assert_eq!(result, expected(&path, tolerance));
        assert_eq!(result[0], path[0]);
        assert_eq!(result[result.len() - 1], path[199]);
        assert!(result.len() <= path.len());
        let mut left = path.iter();
        for point in &result {
            assert!(left.any(|given| given == point));
        }
        for point in &path {
            assert!(result.windows(2).any(|part| segment_distance(part[0], part[1], *point)
                <= tolerance));
        }
    }
}

#[test]
fn some_paths_can_never_be_short_enough() {
    // no distance is less than a negative tolerance
    assert!(decimate(&points(&[(0., 0.), (1., 0.)]), number(-1.), &distance).is_none());
    // the last point is never close enough to the line it ends
    let far = |_: SerializablePoint, end: SerializablePoint, point: SerializablePoint| {
        number(if point == end { 1. } else { 0. })
    };
    assert!(decimate(&points(&[(0., 0.), (1., 0.), (2., 0.)]), number(0.5), &far).is_none());
}

#[test]
fn what_is_not_a_number_is_no_corner() {
    let nowhere = |_: SerializablePoint, _: SerializablePoint, _: SerializablePoint| number(f64::NAN);
    let result = decimate(&points(&[(0., 0.), (5., 5.), (1., 0.)]), number(0.5), &nowhere).unwrap();
    assert_eq!(coordinates(&result), vec![(0., 0.), (1., 0.)]);
}

fn path(parts: Vec<Vec<SerializablePoint>>, decimation: Option<Number>) -> Content {
    Content::Path { parts, closed: true, self_clip: false, decimation, class: Some("c".to_string()) }
}

fn group(contents: Vec<Content>) -> Content {
    Content::Group {
        contents,
        class: None,
        bounding_box: None,
        region: None,
        transform: None,
        clip: None,
        frame: None,
    }
}

fn flat() -> Vec<SerializablePoint> {
    points(&[(0., 0.), (1., 0.), (2., 0.)])
}

fn ends() -> Vec<SerializablePoint> {
    points(&[(0., 0.), (2., 0.)])
}

#[test]
fn content_is_decimated_where_it_is_to_be() {
    let content = |before: bool| {
        let (part, decimation) =
            if before { (flat(), Some(number(0.1))) } else { (ends(), None) };
        group(vec![
            path(vec![flat()], None),
            path(vec![part.clone(), part.clone()], decimation),
            Content::ClipPath {
                content: Box::new(group(vec![path(vec![part.clone()], decimation), path(vec![], decimation)])),
                id: "x".to_string(),
            },
        ])
    };
    let result = decimate_content(content(true), &distance).unwrap();
    assert_eq!(format!("{:?}", result), format!("{:?}", content(false)));
    // once that is done, it changes nothing
    let result = decimate_content(result, &distance).unwrap();
    assert_eq!(format!("{:?}", result), format!("{:?}", content(false)));
}

#[test]
fn some_content_cannot_be_decimated() {
    assert!(decimate_content(path(vec![flat(), vec![]], Some(number(1.))), &distance).is_none());
    assert!(decimate_content(path(vec![flat(), vec![]], None), &distance).is_some());
    assert!(decimate_content(group(vec![path(vec![flat()], Some(number(-1.)))]), &distance).is_none());
}
