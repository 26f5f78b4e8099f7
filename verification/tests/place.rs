use mapmaker::content::{Content, Layer};
use mapmaker::errors::MapError;
use mapmaker::geometry::{Projection, Rect, SerializablePoint, Transform};
use mapmaker::number::Number;
use mapmaker::place::{establish_top_level, transform_content, Arithmetic};

fn number(x: f64) -> Number {
    Number { bits: x.to_bits() }
}

fn point(x: f64, y: f64) -> SerializablePoint {
    SerializablePoint { x: number(x), y: number(y) }
}

fn rect(size: f64) -> Rect {
    Rect { left: number(0.), right: number(size), top: number(size), bottom: number(0.) }
}

fn mercator(scale: f64) -> Transform {
    Transform::Mercator { central_meridian: number(0.), scale: number(scale) }
}

fn oblique() -> Transform {
    Transform::Oblique {
        pole_latitude: number(0.),
        pole_longitude: number(0.),
        projection: Box::new(mercator(1.)),
    }
}

fn rotated() -> Transform {
    Transform::Affine {
        longitudinal_scale: number(1.),
        false_easting: number(0.),
        latitudinal_scale: number(1.),
        false_northing: number(0.),
        rotation: number(30.),
    }
}

fn label(text: &str) -> Content {
    Content::Label { text: text.to_string(), location: point(1., 2.), class: None }
}

fn group(
    contents: Vec<Content>,
    bounding_box: Option<Rect>,
    region: Option<Rect>,
    transform: Option<Transform>,
) -> Content {
    Content::Group {
        contents,
        class: Some("g".to_string()),
        bounding_box,
        region,
        transform,
        clip: Some(true),
        frame: None,
    }
}

/// arithmetic that leaves a trace of the projection: what is stated is moved by its scale, and what
/// is fitted is moved by the width of its region
fn amount(projection: &Projection) -> f64 {
    match projection {
        Projection::Stated(Transform::Mercator { scale, .. }) => float(*scale),
        Projection::Fitted { region, bounding_box } => {
            float(region.right) + 100. * float(bounding_box.right)
        }
        _ => 0.,
    }
}

fn float(number: Number) -> f64 {
    f64::from_bits(number.bits)
}

fn put_point(projection: &Projection, p: SerializablePoint) -> SerializablePoint {
    point(float(p.x) + amount(projection), float(p.y))
}

fn put_curve(projection: &Projection, part: &Vec<SerializablePoint>) -> Vec<SerializablePoint> {
    let mut part: Vec<SerializablePoint> = part.iter().map(|p| put_point(projection, *p)).collect();
    part.push(point(-1., -1.));
    part
}

fn put_box(projection: &Projection, boks: Rect) -> Rect {
    Rect { right: number(float(boks.right) + amount(projection)), ..boks }
}

fn put_bearing(projection: &Projection, location: SerializablePoint, bearing: Number) -> Number {
    number(float(bearing) + float(location.x) + amount(projection))
}

fn shrink(boks: Rect) -> Rect {
    Rect {
        left: number(float(boks.left) + 0.25),
        right: number(float(boks.right) - 0.25),
        top: number(float(boks.top) - 0.25),
        bottom: number(float(boks.bottom) + 0.25),
    }
}

fn place(
    content: Content,
    projection: Option<Projection>,
    bounding_box: Option<Rect>,
) -> Result<Content, MapError<String>> {
    let arithmetic = Arithmetic {
        point: put_point,
        curve: put_curve,
        boks: put_box,
        bearing: put_bearing,
        shrink,
    };
    transform_content(content, &projection, &bounding_box, &arithmetic)
}

fn assert_same(found: &Content, expected: &Content) {
    assert_eq!(format!("{:?}", found), format!("{:?}", expected));
}

fn line(x: f64) -> Content {
    Content::Line { start: point(x, 0.), end: point(x + 1., 1.), class: None }
}

fn stated(scale: f64) -> Option<Projection> {
    Some(Projection::Stated(mercator(scale)))
}

#[test]
fn transforms_are_inherited() {
    let content = group(
        vec![
            line(0.),
            group(vec![line(0.)], Some(rect(2.)), None, None),
            group(vec![line(0.)], None, Some(rect(3.)), None),
            group(vec![line(0.)], Some(rect(4.)), Some(rect(5.)), None),
            group(vec![line(0.)], Some(rect(6.)), Some(rect(7.)), Some(mercator(8.))),
            Content::ClipPath { content: Box::new(line(0.)), id: "x".to_string() },
        ],
        None,
        None,
        None,
    );
    assert_same(
        &place(content, stated(10.), Some(rect(1.))).unwrap(),
        &group(
            vec![
                line(10.),
                group(vec![line(10.)], Some(rect(2.)), None, None),
                group(vec![line(10.)], None, Some(rect(3.)), None),
                group(vec![line(405.)], Some(rect(4.)), Some(rect(5.)), None),
                group(vec![line(8.)], Some(rect(6.)), Some(rect(7.)), None),
                Content::ClipPath { content: Box::new(line(10.)), id: "x".to_string() },
            ],
            None,
            None,
            None,
        ),
    );
}

#[test]
fn all_kinds_of_elements_are_placed() {
    let rectangle = |size| Content::Rectangle { coordinates: rect(size), class: Some("r".to_string()) };
    let with_width = |boks: Rect, right: f64| Content::Rectangle {
        coordinates: Rect { right: number(right), ..boks },
        class: Some("r".to_string()),
    };
    assert_same(&place(rectangle(1.), stated(5.), None).unwrap(), &with_width(rect(1.), 6.));
    let path = |parts| Content::Path {
        parts,
        closed: true,
        self_clip: true,
        decimation: None,
        class: Some("p".to_string()),
    };
    assert_same(
        &place(path(vec![vec![point(1., 2.)], vec![]]), stated(5.), None).unwrap(),
        &path(vec![vec![point(6., 2.), point(-1., -1.)], vec![point(-1., -1.)]]),
    );
    let marker = |x: f64, bearing: Option<f64>| Content::Marker {
        detail: Some("<a/>".to_string()),
        filename: None,
        file: None,
        location: point(x, 2.),
        size: number(9.),
        bearing: bearing.map(number),
        class: None,
    };
    assert_same(&place(marker(1., None), stated(5.), None).unwrap(), &marker(6., None));
    assert_same(&place(marker(1., Some(30.)), stated(5.), None).unwrap(), &marker(6., Some(36.)));
}

#[test]
fn labels_stay_in_the_innermost_box() {
    let at = |x: f64, y: f64| Content::Label { text: "a".to_string(), location: point(x, y), class: None };
    let upside_down = Rect { top: number(0.), bottom: number(3.), ..rect(3.) };
    for boks in [rect(3.), upside_down] {
        assert_same(&place(at(1., 1.), stated(0.), Some(boks)).unwrap(), &at(1., 1.));
        assert_same(&place(at(1., 1.), stated(5.), Some(boks)).unwrap(), &at(2.75, 1.));
        assert_same(&place(at(-9., 9.), stated(5.), Some(boks)).unwrap(), &at(0.25, 2.75));
    }
    assert_same(&place(at(-9., 9.), stated(5.), None).unwrap(), &at(-4., 9.));
    let content = group(vec![at(9., 9.)], Some(rect(2.)), None, None);
    assert_same(
        &place(content, stated(0.), Some(rect(3.))).unwrap(),
        &group(vec![at(1.75, 1.75)], Some(rect(2.)), None, None),
    );
}

#[test]
fn elements_need_a_transform() {
    let contents = [
        label("a"),
        line(0.),
        Content::Rectangle { coordinates: rect(1.), class: None },
        Content::Path { parts: vec![], closed: false, self_clip: false, decimation: None, class: None },
        Content::Marker {
            detail: None,
            filename: None,
            file: None,
            location: point(0., 0.),
            size: number(1.),
            bearing: None,
            class: None,
        },
    ];
    for content in contents {
        assert!(matches!(place(content, None, None), Err(MapError::NoRegion)));
    }
    // a group by itself needs none
    assert!(place(group(vec![], None, None, None), None, None).is_ok());
    assert!(place(group(vec![label("a")], None, None, Some(rotated())), None, None).is_ok());
}

#[test]
fn rectangles_need_the_right_transform() {
    let place_under = |transform| {
        place(
            Content::Rectangle { coordinates: rect(1.), class: None },
            Some(Projection::Stated(transform)),
            None,
        )
    };
    assert!(place_under(mercator(1.)).is_ok());
    assert!(matches!(place_under(rotated()), Err(MapError::RotatedRectangle)));
    assert!(matches!(place_under(oblique()), Err(MapError::ObliqueRectangle)));
    // other things go anywhere
    assert!(place(label("a"), Some(Projection::Stated(oblique())), None).is_ok());
}

fn layer() -> Content {
    Content::Layer {
        layer: Layer {
            filename: String::new(),
            class: None,
            class_column: None,
            label_column: None,
            case: None,
            abbr: None,
            marker_name: None,
            size: None,
            double: None,
            self_clip: None,
            decimation: None,
            filters: None,
            marker_file: None,
            shapefile: None,
        },
    }
}

#[test]
fn layers_and_graticules_should_have_been_loaded() {
    let graticule = Content::Graticule {
        parallel_spacing: number(1.),
        meridian_spacing: number(1.),
        class: None,
    };
    assert!(matches!(place(layer(), None, None), Err(MapError::LayerNotLoaded)));
    assert!(matches!(
        place(group(vec![label("a"), graticule, layer()], None, None, Some(rotated())), None, None),
        Err(MapError::GraticuleNotLoaded)
    ));
}

#[test]
fn the_whole_map_has_a_box_and_perhaps_a_transform() {
    assert!(matches!(
        establish_top_level(&None, &Some(rect(1.)), Some(mercator(1.))),
        Err(MapError::NoTopLevelBox)
    ));
    let (boks, projection) = establish_top_level(&Some(rect(1.)), &None, None).unwrap();
    assert_eq!(boks, rect(1.));
    assert!(projection.is_none());
    let (_, projection) = establish_top_level(&Some(rect(1.)), &Some(rect(2.)), None).unwrap();
    match projection {
        Some(Projection::Fitted { region, bounding_box }) => {
            assert_eq!(region, rect(2.));
            assert_eq!(bounding_box, rect(1.));
        }
        other => panic!("{:?}", other),
    }
    let (_, projection) =
        establish_top_level(&Some(rect(1.)), &Some(rect(2.)), Some(mercator(3.))).unwrap();
    assert!(matches!(projection, Some(Projection::Stated(Transform::Mercator { .. }))));
}
