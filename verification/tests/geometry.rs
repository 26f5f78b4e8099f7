use mapmaker::errors::MapError;
use mapmaker::geometry::{
    any_of_shape_is_in_box, bounds_of, center_of, coerce_in_box, upright, Projection, Rect,
    SerializablePoint, Shape, ShapeType, Transform,
};
use mapmaker::number::Number;

fn number(x: f64) -> Number {
    Number { bits: x.to_bits() }
}

fn point(x: f64, y: f64) -> SerializablePoint {
    SerializablePoint { x: number(x), y: number(y) }
}

fn rect(left: f64, right: f64, top: f64, bottom: f64) -> Rect {
    Rect { left: number(left), right: number(right), top: number(top), bottom: number(bottom) }
}

fn shape(kind: ShapeType, x: (f64, f64), y: (f64, f64)) -> Shape {
    Shape {
        kind,
        x_range: (number(x.0), number(x.1)),
        y_range: (number(y.0), number(y.1)),
        center: point((x.0 + x.1) / 2., (y.0 + y.1) / 2.),
        parts: vec![],
    }
}

#[test]
fn shapes_have_bounds_and_centers() {
    let polygon = shape(ShapeType::Polygon, (1., 3.), (-2., 6.));
    assert_eq!(bounds_of(&polygon), Ok(((number(1.), number(3.)), (number(-2.), number(6.)))));
    assert_eq!(center_of(&polygon).unwrap(), point(2., 2.));
}

#[test]
fn some_shapes_have_no_geometry() {
    let nothing = shape(ShapeType::NullShape, (1., 3.), (-2., 6.));
    assert_eq!(bounds_of(&nothing), Err(()));
    assert!(matches!(center_of(&nothing), Err(MapError::NoGeometry)));
    assert!(!any_of_shape_is_in_box(&nothing, &rect(-9., 9., 9., -9.)));
}

#[test]
fn shapes_are_held_against_boxes() {
    let boxes = [
        rect(0., 10., 10., 0.),
        rect(10., 0., 10., 0.),
        rect(0., 10., 0., 10.),
        rect(10., 0., 0., 10.),
    ];
    let cases = [
        ((1., 2.), (1., 2.), true),
        ((-1., 1.), (-1., 1.), true),
        ((-9., 99.), (4., 5.), true),
        ((5., 5.), (5., 5.), true),
        // what only touches the box is not in it
        ((-1., 0.), (1., 2.), false),
        ((10., 11.), (1., 2.), false),
        ((1., 2.), (-1., 0.), false),
        ((1., 2.), (10., 12.), false),
        ((12., 13.), (1., 2.), false),
        ((f64::NAN, 2.), (1., 2.), false),
    ];
    for boks in &boxes {
        for (x, y, expected) in cases {
            assert_eq!(any_of_shape_is_in_box(&shape(ShapeType::Polyline, x, y), boks), expected);
        }
    }
}

#[test]
fn boxes_are_set_upright() {
    assert_eq!(upright(&rect(0., 1., 2., 3.)), rect(0., 1., 3., 2.));
    assert_eq!(upright(&rect(0., 1., 3., 2.)), rect(0., 1., 3., 2.));
    assert_eq!(upright(&rect(1., 0., 3., 3.)), rect(1., 0., 3., 3.));
}

fn without_margin(boks: Rect) -> Rect {
    let float = |n: Number| f64::from_bits(n.bits);
    rect(
        float(boks.left) + 2.,
        float(boks.right) - 2.,
        float(boks.top) - 2.,
        float(boks.bottom) + 2.,
    )
}

#[test]
fn points_are_coerced_into_boxes() {
    // it makes no difference whether the box is upside down
    for boks in [rect(0., 10., 20., 10.), rect(0., 10., 10., 20.)] {
        let coerce = |x, y| coerce_in_box(&point(x, y), &boks, &without_margin);
        assert_eq!(coerce(5., 15.), point(5., 15.));
        assert_eq!(coerce(1., 99.), point(2., 18.));
        assert_eq!(coerce(9., -99.), point(8., 12.));
        assert_eq!(coerce(f64::NAN, 15.), point(8., 15.));
    }
    // a box that is too small for its margin
    let boks = rect(0., 3., 3., 0.);
    assert_eq!(coerce_in_box(&point(1.5, 1.5), &boks, &without_margin), point(2., 2.));
}

#[test]
fn points_go_to_the_nearer_end() {
    let margin = |boks: Rect| boks;
    let boks = rect(-1., 3., 2., -2.);
    let upside_down = rect(-1., 3., -2., 2.);
    for x in [-9., -1., 0., 3., 4., f64::INFINITY, f64::NAN] {
        for y in [-7., -2., 1., 2., 5., f64::NEG_INFINITY, f64::NAN] {
            let there = coerce_in_box(&point(x, y), &boks, &margin);
            assert_eq!(there.x, number(if x < -1. { -1. } else if x <= 3. { x } else { 3. }));
            assert_eq!(there.y, number(if y < -2. { -2. } else if y <= 2. { y } else { 2. }));
            // to do so again changes nothing, nor does it to turn the box upside down
            assert_eq!(coerce_in_box(&there, &boks, &margin), there);
            assert_eq!(coerce_in_box(&point(x, y), &upside_down, &margin), there);
        }
    }
}

#[test]
fn the_sign_of_a_zero_hardly_matters() {
    let margin = |boks: Rect| boks;
    for y in [-1., 0., -0., 1.] {
        let one = coerce_in_box(&point(1., y), &rect(0., 2., 0., -0.), &margin);
        let other = coerce_in_box(&point(1., y), &rect(0., 2., -0., 0.), &margin);
        assert_eq!(one.x, other.x);
        assert_eq!(f64::from_bits(one.y.bits), 0.);
        assert_eq!(f64::from_bits(other.y.bits), 0.);
    }
}

#[test]
fn shape_types_have_the_names_that_shapefile_gives_them() {
    let cases = [
        (ShapeType::NullShape, shapefile::ShapeType::NullShape),
        (ShapeType::Point, shapefile::ShapeType::Point),
        (ShapeType::Polyline, shapefile::ShapeType::Polyline),
        (ShapeType::Polygon, shapefile::ShapeType::Polygon),
        (ShapeType::Multipoint, shapefile::ShapeType::Multipoint),
        (ShapeType::PointZ, shapefile::ShapeType::PointZ),
        (ShapeType::PolylineZ, shapefile::ShapeType::PolylineZ),
        (ShapeType::PolygonZ, shapefile::ShapeType::PolygonZ),
        (ShapeType::MultipointZ, shapefile::ShapeType::MultipointZ),
        (ShapeType::PointM, shapefile::ShapeType::PointM),
        (ShapeType::PolylineM, shapefile::ShapeType::PolylineM),
        (ShapeType::PolygonM, shapefile::ShapeType::PolygonM),
        (ShapeType::MultipointM, shapefile::ShapeType::MultipointM),
        (ShapeType::Multipatch, shapefile::ShapeType::Multipatch),
    ];
    for (ours, theirs) in cases {
        assert_eq!(ours.name(), theirs.to_string());
    }
}

fn affine(rotation: f64) -> Transform {
    Transform::Affine {
        longitudinal_scale: number(1.),
        false_easting: number(0.),
        latitudinal_scale: number(-1.),
        false_northing: number(0.),
        rotation: number(rotation),
    }
}

fn mercator() -> Transform {
    Transform::Mercator { central_meridian: number(0.), scale: number(1e-6) }
}

fn oblique() -> Transform {
    Transform::Oblique {
        pole_latitude: number(30.),
        pole_longitude: number(60.),
        projection: Box::new(mercator()),
    }
}

fn fitted() -> Projection {
    Projection::Fitted { region: rect(0., 1., 1., 0.), bounding_box: rect(0., 9., 0., 9.) }
}

#[test]
fn straight_lines_stay_straight_under_some_transforms() {
    assert!(affine(30.).is_affine());
    assert!(!mercator().is_affine());
    assert!(!oblique().is_affine());
    assert!(fitted().is_affine());
    assert!(Projection::Stated(affine(0.)).is_affine());
    assert!(!Projection::Stated(oblique()).is_affine());
}

#[test]
fn rectangles_stay_rectangles_under_some_transforms() {
    assert!(fitted().check_box().is_ok());
    assert!(Projection::Stated(affine(0.)).check_box().is_ok());
    assert!(Projection::Stated(affine(-0.)).check_box().is_ok());
    assert!(Projection::Stated(mercator()).check_box().is_ok());
    assert!(matches!(
        Projection::Stated(affine(1e-9)).check_box(),
        Err(MapError::RotatedRectangle)
    ));
    assert!(matches!(
        Projection::Stated(affine(f64::NAN)).check_box(),
        Err(MapError::RotatedRectangle)
    ));
    assert!(matches!(Projection::Stated(oblique()).check_box(), Err(MapError::ObliqueRectangle)));
}

#[test]
fn copies_are_the_same() {
    for projection in [Projection::Stated(oblique()), Projection::Stated(affine(3.)), fitted()] {
        assert_eq!(format!("{:?}", projection.copy()), format!("{:?}", projection));
    }
}
