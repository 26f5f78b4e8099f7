use mapmaker::content::{Content, Layer, ShapeRecord, Shapefile};
use mapmaker::decimals::Notation;
use mapmaker::document::Document;
use mapmaker::drawing::{BoxText, Drawing, PointText};
use mapmaker::errors::MapError;
use mapmaker::geometry::{Projection, Rect, SerializablePoint, Shape, ShapeType, Transform};
use mapmaker::graticule::Ruler;
use mapmaker::map::{add_content, make_drawing, make_map, Heading, Surroundings, Tools};
use mapmaker::number::Number;
use mapmaker::place::Arithmetic;
use mapmaker::records::Record;

fn number(x: f64) -> Number {
    Number { bits: x.to_bits() }
}

fn float(n: Number) -> f64 {
    f64::from_bits(n.bits)
}

fn at(x: f64, y: f64) -> SerializablePoint {
    SerializablePoint { x: number(x), y: number(y) }
}

fn square(size: f64) -> Rect {
    Rect { left: number(0.), right: number(size), top: number(size), bottom: number(0.) }
}

fn heading() -> Heading {
    Heading {
        title: "The Map".to_string(),
        description: "all of it".to_string(),
        style: "    g { fill: none; }".to_string(),
    }
}

type Bound = fn(Number, Number) -> i32;
type Multiple = fn(i32, Number) -> Number;
type Distance = fn(SerializablePoint, SerializablePoint, SerializablePoint) -> Number;
type PutPoint = fn(&Projection, SerializablePoint) -> SerializablePoint;
type PutCurve = fn(&Projection, &Vec<SerializablePoint>) -> Vec<SerializablePoint>;
type PutBox = fn(&Projection, Rect) -> Rect;
type PutBearing = fn(&Projection, SerializablePoint, Number) -> Number;
type Shrink = fn(Rect) -> Rect;
type WritePoint = fn(SerializablePoint) -> PointText<String>;
type WriteBox = fn(Rect) -> BoxText<String>;
type WriteNumber = fn(Number) -> String;

/// how much bigger things are on the map
fn scale(projection: &Projection) -> f64 {
    match projection {
        Projection::Fitted { region, bounding_box } => float(bounding_box.right) / float(region.right),
        Projection::Stated(Transform::Mercator { scale, .. }) => float(*scale),
        _ => 1.,
    }
}

fn put_point(projection: &Projection, point: SerializablePoint) -> SerializablePoint {
    at(float(point.x) * scale(projection), float(point.y) * scale(projection))
}

fn write_box(boks: Rect) -> BoxText<String> {
    BoxText {
        left: format!("{:.1}", float(boks.left)),
        top: format!("{:.1}", float(boks.top)),
        width: format!("{:.1}", float(boks.right) - float(boks.left)),
        height: format!("{:.1}", float(boks.bottom) - float(boks.top)),
    }
}

/// half the area of the triangle is enough to tell what is straight
fn distance(a: SerializablePoint, b: SerializablePoint, p: SerializablePoint) -> Number {
    let (ax, ay) = (float(a.x), float(a.y));
    let area = (float(b.x) - ax) * (float(p.y) - ay) - (float(b.y) - ay) * (float(p.x) - ax);
    number(area.abs())
}

fn tools() -> Tools<
    Bound,
    Bound,
    Multiple,
    Distance,
    PutPoint,
    PutCurve,
    PutBox,
    PutBearing,
    Shrink,
    WritePoint,
    WriteBox,
    WriteNumber,
    WriteNumber,
    WriteBox,
> {
    Tools {
        ruler: Ruler {
            first: |coordinate, spacing| (float(coordinate) / float(spacing)).ceil() as i32,
            last: |coordinate, spacing| (float(coordinate) / float(spacing)).floor() as i32,
            multiple: |i, spacing| number(i as f64 * float(spacing)),
        },
        distance,
        arithmetic: Arithmetic {
            point: put_point,
            curve: |projection, points| points.iter().map(|&point| put_point(projection, point)).collect(),
            boks: |_, boks| boks,
            bearing: |_, _, bearing| bearing,
            shrink: |boks| boks,
        },
        notation: Notation {
            point: |point| PointText {
                x: format!("{:.1}", float(point.x)),
                y: format!("{:.1}", float(point.y)),
            },
            boks: write_box,
            scale: |size| format!("{:.4}", float(size)),
            bearing: |bearing| format!("{:.1}", float(bearing)),
        },
        page: |_| BoxText {
            left: "-1".to_string(),
            top: "-2".to_string(),
            width: "30".to_string(),
            height: "40".to_string(),
        },
    }
}

fn roads(points: &[(f64, f64)], decimation: Option<f64>) -> Content {
    let shape = Shape {
        kind: ShapeType::Polyline,
        x_range: (number(0.), number(9.)),
        y_range: (number(0.), number(9.)),
        center: at(4., 5.),
        parts: vec![points.iter().map(|&(x, y)| at(x, y)).collect()],
    };
    Content::Layer {
        layer: Layer {
            filename: "roads".to_string(),
            class: Some("roads".to_string()),
            class_column: None,
            label_column: None,
            case: None,
            abbr: None,
            marker_name: None,
            size: None,
            double: None,
            self_clip: None,
            decimation: decimation.map(number),
            filters: None,
            marker_file: None,
            shapefile: Some(Shapefile {
                shapes: vec![ShapeRecord { shape, record: Record { fields: vec![] } }],
                complete: true,
            }),
        },
    }
}

fn bent() -> [(f64, f64); 4] {
    [(0., 0.), (1., 0.), (2., 0.), (2., 5.)]
}

fn graticule(spacing: f64) -> Content {
    Content::Graticule { parallel_spacing: number(spacing), meridian_spacing: number(spacing), class: None }
}

fn label(text: &str, x: f64, y: f64) -> Content {
    Content::Label { text: text.to_string(), location: at(x, y), class: None }
}

fn around() -> Surroundings {
    Surroundings {
        region: Some(square(10.)),
        projection: Some(Projection::Fitted { region: square(10.), bounding_box: square(100.) }),
        bounding_box: square(100.),
    }
}

const START: &str = "\
<svg viewBox=\"-1 -2 30 40\" width=\"30mm\" height=\"40mm\" xmlns=\"http://www.w3.org/2000/svg\" version=\"1.1\">
  <title>The Map</title>
  <desc>all of it</desc>
  <style>
    g { fill: none; }
  </style>
";

#[test]
fn maps_are_made() {
    let contents = vec![roads(&bent(), Some(0.1)), graticule(10.), label("a", 3., 20.)];
    let code = make_map(&heading(), &Some(square(100.)), &Some(square(10.)), None, contents, &tools());
    let expected = "    <g class=\"roads\">
      <path d=\"M0.0,0.0 L20.0,0.0 L20.0,50.0 \"/>
    </g>
    <g>
      <path d=\"M0.0,0.0 L100.0,0.0 \"/>
      <path d=\"M0.0,100.0 L100.0,100.0 \"/>
      <path d=\"M0.0,0.0 L0.0,100.0 \"/>
      <path d=\"M100.0,0.0 L100.0,100.0 \"/>
    </g>
    <text x=\"30.0\" y=\"100.0\">a</text>
";
    assert_eq!(code.unwrap().unwrap(), format!("{}{}</svg>\n", START, expected));
}

#[test]
fn maps_may_be_empty() {
    let code = make_map(&heading(), &Some(square(100.)), &None, None, vec![], &tools());
    assert_eq!(code.unwrap().unwrap(), format!("{}</svg>\n", START));
}

#[test]
fn curves_are_downsampled_before_they_are_placed() {
    let parts = |decimation| {
        match make_drawing(roads(&bent(), decimation), &around(), &tools()).unwrap().unwrap() {
            Drawing::Group { contents, .. } => match &contents[0] {
                Drawing::Path { parts, .. } => parts[0].iter().map(|point| point.x.clone()).collect::<Vec<String>>(),
                other => panic!("{:?}", other),
            },
            other => panic!("{:?}", other),
        }
    };
    assert_eq!(parts(None), ["0.0", "10.0", "20.0", "20.0"]);
    assert_eq!(parts(Some(0.1)), ["0.0", "20.0", "20.0"]);
    // the corner is 10 units of area off before the transform and 1000 after it
    assert_eq!(parts(Some(11.)), ["0.0", "20.0"]);
}

#[test]
fn maps_need_a_box() {
    let contents = vec![graticule(0.)];
    match make_map(&heading(), &None, &Some(square(10.)), None, contents, &tools()) {
        Some(Err(MapError::NoTopLevelBox)) => {}
        other => panic!("{:?}", other),
    }
}

#[test]
fn the_first_thing_that_is_wrong_counts() {
    let make = |region, transform, contents| {
        make_map(&heading(), &Some(square(100.)), &region, transform, contents, &tools())
    };
    let mercator = || Some(Transform::Mercator { central_meridian: number(0.), scale: number(1.) });
    // what can't be loaded
    assert!(matches!(
        make(None, mercator(), vec![label("a", 0., 0.), graticule(1.)]),
        Some(Err(MapError::NoRegion))
    ));
    // what can't be placed
    let oblique = Transform::Oblique {
        pole_latitude: number(0.),
        pole_longitude: number(0.),
        projection: Box::new(mercator().unwrap()),
    };
    let rectangle = || Content::Rectangle { coordinates: square(1.), class: None };
    assert!(matches!(
        make(None, Some(oblique), vec![rectangle(), graticule(1.)]),
        Some(Err(MapError::ObliqueRectangle))
    ));
    assert!(matches!(make(None, None, vec![rectangle()]), Some(Err(MapError::NoRegion))));
    // what can't be worked on
    assert!(make(Some(square(10.)), None, vec![roads(&[], Some(1.)), graticule(1.)]).is_none());
    assert!(make(Some(square(10.)), None, vec![roads(&bent(), Some(-1.))]).is_none());
    // what can't be written
    let marker = Content::Marker {
        detail: Some("no tag".to_string()),
        filename: None,
        file: None,
        location: at(0., 0.),
        size: number(1.),
        bearing: None,
        class: None,
    };
    assert!(matches!(
        make(Some(square(10.)), None, vec![marker, roads(&[], Some(1.))]),
        Some(Err(MapError::NoTopLevelTag { .. }))
    ));
}

#[test]
fn contents_are_written_in_order() {
    let mut document = Document::new(&write_box(square(1.)), "", "", "");
    assert!(matches!(add_content(&mut document, graticule(10.), &around(), &tools()), Some(Ok(()))));
    assert_eq!(document.element_count(), 5);
    // what is wrong leaves no trace in the code
    let nowhere = Surroundings { region: None, ..around() };
    assert!(matches!(
        add_content(&mut document, graticule(10.), &nowhere, &tools()),
        Some(Err(MapError::NoRegion))
    ));
    assert!(add_content(&mut document, roads(&[], Some(1.)), &around(), &tools()).is_none());
    assert!(matches!(add_content(&mut document, label("z", 1., 1.), &around(), &tools()), Some(Ok(()))));
    assert_eq!(document.element_count(), 6);
    let code = document.finish();
    assert!(code.find("<path").unwrap() < code.find("<text").unwrap());
    assert!(code.ends_with("    <text x=\"10.0\" y=\"10.0\">z</text>\n</svg>\n"));
}
