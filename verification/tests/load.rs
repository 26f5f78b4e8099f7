use mapmaker::content::{Case, Content, Layer, Replacement, ShapeRecord, Shapefile};
use mapmaker::errors::MapError;
use mapmaker::geometry::{Rect, SerializablePoint, Shape, ShapeType};
use mapmaker::graticule::{draw_lines, Grid, Ruler};
use mapmaker::load::{load_content, try_load_content};
use mapmaker::number::Number;
use mapmaker::records::{Field, FieldValue, Filter, Numeral, Record};

fn number(x: f64) -> Number {
    Number { bits: x.to_bits() }
}

fn point(x: f64, y: f64) -> SerializablePoint {
    SerializablePoint { x: number(x), y: number(y) }
}

fn rect(left: f64, right: f64, top: f64, bottom: f64) -> Rect {
    Rect { left: number(left), right: number(right), top: number(top), bottom: number(bottom) }
}

fn region() -> Option<Rect> {
    Some(rect(0., 10., 10., 0.))
}

fn text(s: &str) -> FieldValue<String> {
    FieldValue::Character(Some(s.to_string()))
}

fn numeric(x: f64) -> FieldValue<String> {
    FieldValue::Numeric(Some(Numeral { value: number(x), text: x.to_string() }))
}

fn record(fields: Vec<(&str, FieldValue<String>)>) -> Record {
    Record {
        fields: fields
            .into_iter()
            .map(|(name, value)| Field { name: name.to_string(), value })
            .collect(),
    }
}

/// a shape with two points
fn shape(kind: ShapeType, start: (f64, f64), end: (f64, f64), fields: Vec<(&str, FieldValue<String>)>) -> ShapeRecord {
    ShapeRecord {
        shape: Shape {
            kind,
            x_range: (number(start.0.min(end.0)), number(start.0.max(end.0))),
            y_range: (number(start.1.min(end.1)), number(start.1.max(end.1))),
            center: point((start.0 + end.0) / 2., (start.1 + end.1) / 2.),
            parts: vec![vec![point(start.0, start.1), point(end.0, end.1)]],
        },
        record: record(fields),
    }
}

fn layer(shapes: Vec<ShapeRecord>) -> Layer {
    Layer {
        filename: "towns".to_string(),
        class: None,
        class_column: None,
        label_column: None,
        case: None,
        abbr: None,
        marker_name: None,
        size: None,
        double: None,
        self_clip: None,
        decimation: None,
        filters: None,
        marker_file: None,
        shapefile: Some(Shapefile { shapes, complete: true }),
    }
}

fn some(s: &str) -> Option<String> {
    Some(s.to_string())
}

fn group(contents: Vec<Content>, class: Option<String>) -> Content {
    Content::Group {
        contents,
        class,
        bounding_box: None,
        region: None,
        transform: None,
        clip: Some(false),
        frame: Some(false),
    }
}

fn path(start: (f64, f64), end: (f64, f64), closed: bool, class: Option<String>) -> Content {
    Content::Path {
        parts: vec![vec![point(start.0, start.1), point(end.0, end.1)]],
        closed,
        self_clip: false,
        decimation: None,
        class,
    }
}

fn load(layer: Layer) -> Result<Content, MapError<String>> {
    load_content(Content::Layer { layer }, &region(), &ruler())
}

fn assert_same(found: &Content, expected: &Content) {
    assert_eq!(format!("{:?}", found), format!("{:?}", expected));
}

#[test]
fn layers_become_paths() {
    let mut roads = layer(vec![
        shape(ShapeType::Polygon, (1., 1.), (2., 2.), vec![]),
        shape(ShapeType::Polyline, (3., 3.), (4., 5.), vec![]),
        shape(ShapeType::PolylineM, (-3., 3.), (4., 5.), vec![]),
        // these are not in the region
        shape(ShapeType::Polyline, (11., 3.), (12., 5.), vec![]),
        shape(ShapeType::Point, (-1., 3.), (0., 3.), vec![]),
        shape(ShapeType::NullShape, (1., 1.), (2., 2.), vec![]),
    ]);
    roads.class = some("roads");
    assert_same(
        &load(roads).unwrap(),
        &group(
            vec![
                path((1., 1.), (2., 2.), true, None),
                path((3., 3.), (4., 5.), false, None),
                path((-3., 3.), (4., 5.), false, None),
            ],
            some("roads"),
        ),
    );
}

#[test]
fn options_are_passed_on_to_paths() {
    let mut roads = layer(vec![shape(ShapeType::Polygon, (1., 1.), (2., 2.), vec![])]);
    roads.self_clip = Some(true);
    roads.decimation = Some(number(0.25));
    match load(roads).unwrap() {
        Content::Group { contents, .. } => match &contents[..] {
            [Content::Path { self_clip, decimation, .. }] => {
                assert!(*self_clip);
                assert_eq!(*decimation, Some(number(0.25)));
            }
            other => panic!("{:?}", other),
        },
        other => panic!("{:?}", other),
    }
}

#[test]
fn filters_choose_among_shapes() {
    let mut towns = layer(vec![
        shape(ShapeType::Polygon, (1., 1.), (2., 2.), vec![("NAME", text("Troy"))]),
        shape(ShapeType::Polygon, (1., 1.), (3., 3.), vec![("NAME", text("Rome"))]),
        shape(ShapeType::Polygon, (1., 1.), (4., 4.), vec![("NAME", FieldValue::Character(None))]),
    ]);
    towns.filters = Some(vec![Filter::Not {
        filter: Box::new(Filter::OneOf { key: "NAME".to_string(), valid_values: vec!["Troy".to_string()] }),
    }]);
    assert_same(
        &load(towns).unwrap(),
        &group(
            vec![path((1., 1.), (3., 3.), true, None), path((1., 1.), (4., 4.), true, None)],
            None,
        ),
    );
}

#[test]
fn filters_may_be_impossible() {
    let mut towns = layer(vec![shape(ShapeType::Polygon, (1., 1.), (2., 2.), vec![])]);
    towns.filters = Some(vec![Filter::GreaterThan { key: "POP".to_string(), cutoff: number(1.) }]);
    assert!(matches!(load(towns), Err(MapError::FilterFieldMissing { .. })));
}

#[test]
fn classes_come_from_columns() {
    let column = |value| {
        let mut towns = layer(vec![shape(ShapeType::Polygon, (1., 1.), (2., 2.), vec![("Pop.", value)])]);
        towns.class_column = some("Pop.");
        load(towns)
    };
    let result = |class| group(vec![path((1., 1.), (2., 2.), true, class)], None);
    assert_same(&column(text("St. Paul, MN")).unwrap(), &result(some("st__paul__mn")));
    assert_same(&column(text("1 2")).unwrap(), &result(some("_1_2")));
    assert_same(&column(FieldValue::Character(None)).unwrap(), &result(None));
    assert_same(&column(numeric(12.5)).unwrap(), &result(some("pop__12.5")));
    assert_same(&column(FieldValue::Numeric(None)).unwrap(), &result(None));
    assert!(matches!(column(FieldValue::Logical), Err(MapError::ClassFieldType)));
    let mut towns = layer(vec![shape(ShapeType::Polygon, (1., 1.), (2., 2.), vec![])]);
    towns.class_column = some("Pop.");
    match load(towns) {
        Err(MapError::ClassColumnMissing { column, filename }) => {
            assert_eq!(column, "Pop.");
            assert_eq!(filename, "towns");
        }
        other => panic!("{:?}", other),
    }
}

#[test]
fn shapes_are_doubled() {
    let mut roads = layer(vec![shape(ShapeType::Polyline, (1., 1.), (2., 2.), vec![("N", text("A"))])]);
    roads.double = Some(true);
    roads.class_column = some("N");
    assert_same(
        &load(roads).unwrap(),
        &group(
            vec![group(
                vec![
                    path((1., 1.), (2., 2.), false, some("bottom")),
                    path((1., 1.), (2., 2.), false, some("top")),
                ],
                some("a"),
            )],
            None,
        ),
    );
}

#[test]
fn doubling_changes_nothing_else() {
    let roads = |double| {
        let shapes = vec![
            shape(ShapeType::Polyline, (1., 1.), (2., 2.), vec![("N", text("A"))]),
            shape(ShapeType::Polyline, (21., 1.), (22., 2.), vec![("N", text("B"))]),
            shape(ShapeType::Polygon, (3., 1.), (2., 2.), vec![("N", text("C"))]),
        ];
        load(Layer { double, class: some("r"), class_column: some("N"), ..layer(shapes) }).unwrap()
    };
    assert_same(&roads(None), &roads(Some(false)));
    let Content::Group { contents, .. } = roads(None) else { panic!() };
    let doubled = contents
        .into_iter()
        .map(|shape| {
            let class = shape.get_class().cloned();
            let both = vec![shape.copy().set_class(some("bottom")), shape.set_class(some("top"))];
            group(both, class)
        })
        .collect();
    assert_same(&roads(Some(true)), &group(doubled, some("r")));
}

#[test]
fn layers_become_labels() {
    let mut towns = layer(vec![
        shape(ShapeType::Point, (1., 1.), (1., 1.), vec![("NAME", text("mount ida & co"))]),
        shape(ShapeType::Polygon, (2., 3.), (4., 7.), vec![("NAME", text("TROY"))]),
        shape(ShapeType::Point, (5., 5.), (5., 5.), vec![("NAME", FieldValue::Character(None))]),
    ]);
    towns.label_column = some("NAME");
    towns.case = Some(Case::Sentence);
    towns.abbr = Some(vec![Replacement { from: "Mount".to_string(), to: "Mt.".to_string() }]);
    assert_same(
        &load(towns).unwrap(),
        &group(
            vec![
                Content::Label { text: "Mt. ida &amp; co".to_string(), location: point(1., 1.), class: None },
                Content::Label { text: "Troy".to_string(), location: point(3., 5.), class: None },
            ],
            None,
        ),
    );
}

#[test]
fn labels_have_to_be_text() {
    let labels = |fields| {
        let mut towns = layer(vec![shape(ShapeType::Point, (1., 1.), (1., 1.), fields)]);
        towns.label_column = some("NAME");
        load(towns)
    };
    match labels(vec![("NAME", FieldValue::Numeric(None))]) {
        Err(MapError::LabelNotText { column, field_type }) => {
            assert_eq!(column, "NAME");
            assert_eq!(field_type, "dbase::Numeric");
        }
        other => panic!("{:?}", other),
    }
    assert!(matches!(labels(vec![]), Err(MapError::LabelColumnMissing { .. })));
}

#[test]
fn layers_become_markers() {
    let mut towns = layer(vec![
        shape(ShapeType::Polygon, (2., 3.), (4., 7.), vec![]),
        shape(ShapeType::PolygonZ, (1., 1.), (3., 3.), vec![]),
    ]);
    towns.marker_name = some("dot");
    towns.size = Some(number(2.5));
    towns.marker_file = some("<svg>\n  <circle/>\n</svg>\n");
    let marker = |x, y| Content::Marker {
        detail: some("<circle/>\n"),
        filename: None,
        file: None,
        location: point(x, y),
        size: number(2.5),
        bearing: None,
        class: None,
    };
    assert_same(&load(towns).unwrap(), &group(vec![marker(3., 5.), marker(2., 2.)], None));
}

#[test]
fn options_have_to_go_together() {
    let none = || layer(vec![]);
    let with_label = || Layer { label_column: some("NAME"), ..none() };
    let with_marker = || Layer { marker_name: some("dot"), ..none() };
    assert!(matches!(
        load(Layer { marker_name: some("dot"), ..with_label() }),
        Err(MapError::LabelAndMarker)
    ));
    assert!(matches!(
        load(Layer { case: Some(Case::Upper), ..none() }),
        Err(MapError::CaseWithoutLabel)
    ));
    assert!(matches!(load(Layer { abbr: Some(vec![]), ..none() }), Err(MapError::AbbrWithoutLabel)));
    assert!(matches!(
        load(Layer { size: Some(number(1.)), ..none() }),
        Err(MapError::SizeWithoutMarker)
    ));
    assert!(matches!(
        load(Layer { size: Some(number(1.)), ..with_label() }),
        Err(MapError::SizeWithoutMarker)
    ));
    assert!(matches!(
        load(Layer { self_clip: Some(false), ..with_marker() }),
        Err(MapError::SelfClipWithMarker)
    ));
    assert!(matches!(load(with_marker()), Err(MapError::NoMarkerSize { .. })));
    // the first of several objections counts
    assert!(matches!(
        load(Layer { case: Some(Case::Upper), size: Some(number(1.)), ..none() }),
        Err(MapError::CaseWithoutLabel)
    ));
    // and all of them come before the files
    assert!(matches!(
        load(Layer { size: Some(number(1.)), shapefile: None, ..none() }),
        Err(MapError::SizeWithoutMarker)
    ));
}

#[test]
fn files_have_to_be_there() {
    match load(Layer { shapefile: None, ..layer(vec![]) }) {
        Err(MapError::ShapefileNotFound { filename }) => assert_eq!(filename, "towns"),
        other => panic!("{:?}", other),
    }
    let with_marker = |file| Layer {
        marker_name: some("dot"),
        size: Some(number(1.)),
        marker_file: file,
        shapefile: None,
        ..layer(vec![])
    };
    match load(with_marker(None)) {
        Err(MapError::MarkerUnreadable { filename }) => assert_eq!(filename, "dot"),
        other => panic!("{:?}", other),
    }
    assert!(matches!(load(with_marker(some(""))), Err(MapError::MarkerMalformed { .. })));
    assert!(matches!(
        load(with_marker(some("<svg>\n\n</svg>"))),
        Err(MapError::MarkerWithoutTag { .. })
    ));
}

#[test]
fn some_shapes_cannot_be_drawn() {
    match load(layer(vec![shape(ShapeType::Point, (1., 1.), (1., 1.), vec![])])) {
        Err(MapError::PointWithoutMarker { filename }) => assert_eq!(filename, "towns"),
        other => panic!("{:?}", other),
    }
    match load(layer(vec![shape(ShapeType::PolygonM, (1., 1.), (2., 2.), vec![])])) {
        Err(MapError::UnsupportedShape { shape_type }) => assert_eq!(shape_type, "PolygonM"),
        other => panic!("{:?}", other),
    }
    // the first one counts
    assert!(matches!(
        load(layer(vec![
            shape(ShapeType::Multipatch, (1., 1.), (2., 2.), vec![]),
            shape(ShapeType::Point, (1., 1.), (2., 2.), vec![]),
        ])),
        Err(MapError::UnsupportedShape { .. })
    ));
}

fn stuck(layer: Layer) -> bool {
    try_load_content(Content::Layer { layer }, &region(), &ruler()).is_none()
}

#[test]
fn some_layers_cannot_be_worked_on() {
    let town = |name: &str| shape(ShapeType::Polygon, (1., 1.), (2., 2.), vec![("NAME", text(name))]);
    let labels = |name: &str| Layer {
        label_column: some("NAME"),
        case: Some(Case::Sentence),
        ..layer(vec![town(name)])
    };
    assert!(stuck(labels("état")));
    assert!(stuck(labels("")));
    assert!(!stuck(labels("town")));
    let mut empty = town("x");
    empty.shape.parts.push(vec![]);
    assert!(!stuck(layer(vec![empty])));
    let mut empty = town("x");
    empty.shape.parts.push(vec![]);
    assert!(stuck(Layer { decimation: Some(number(1.)), ..layer(vec![empty]) }));
    let broken = |shapes| Layer { shapefile: Some(Shapefile { shapes, complete: false }), ..layer(vec![]) };
    assert!(stuck(broken(vec![town("x")])));
    // an error on the way there comes first
    assert!(!stuck(broken(vec![shape(ShapeType::Point, (1., 1.), (1., 1.), vec![])])));
}

#[test]
fn layers_and_graticules_need_a_region() {
    let content = Content::Layer { layer: layer(vec![]) };
    assert!(matches!(load_content(content, &None, &ruler()), Err(MapError::NoRegion)));
    let content = Content::Graticule {
        parallel_spacing: number(1.),
        meridian_spacing: number(1.),
        class: None,
    };
    assert!(matches!(load_content(content, &None, &ruler()), Err(MapError::NoRegion)));
}

fn graticule(parallel_spacing: f64, meridian_spacing: f64) -> Content {
    Content::Graticule {
        parallel_spacing: number(parallel_spacing),
        meridian_spacing: number(meridian_spacing),
        class: some("grid"),
    }
}

type Bound = fn(Number, Number) -> i32;
type Multiple = fn(i32, Number) -> Number;

fn float(n: Number) -> f64 {
    f64::from_bits(n.bits)
}

fn first(coordinate: Number, spacing: Number) -> i32 {
    (float(coordinate) / float(spacing)).ceil() as i32
}

fn last(coordinate: Number, spacing: Number) -> i32 {
    (float(coordinate) / float(spacing)).floor() as i32
}

fn multiple(i: i32, spacing: Number) -> Number {
    number(i as f64 * float(spacing))
}

fn ruler() -> Ruler<Bound, Bound, Multiple> {
    Ruler { first, last, multiple }
}

#[test]
fn graticules_become_lines() {
    let loaded = load_content(graticule(5., 8.), &region(), &ruler()).unwrap();
    assert_same(
        &loaded,
        &group(
            vec![
                path((0., 0.), (10., 0.), false, None),
                path((0., 5.), (10., 5.), false, None),
                path((0., 10.), (10., 10.), false, None),
                path((0., 0.), (0., 10.), false, None),
                path((8., 0.), (8., 10.), false, None),
            ],
            some("grid"),
        ),
    );
    let nothing = Ruler { first: |_: Number, _: Number| 1, last: |_: Number, _: Number| 0, multiple };
    assert_same(
        &load_content(graticule(5., 7.), &region(), &nothing).unwrap(),
        &group(vec![], some("grid")),
    );
}

#[test]
fn graticules_reach_both_ways() {
    let region = Some(rect(-25., 25., 10., -10.));
    assert_same(
        &load_content(graticule(10., 20.), &region, &ruler()).unwrap(),
        &group(
            vec![
                path((-25., -10.), (25., -10.), false, None),
                path((-25., 0.), (25., 0.), false, None),
                path((-25., 10.), (25., 10.), false, None),
                path((-20., -10.), (-20., 10.), false, None),
                path((0., -10.), (0., 10.), false, None),
                path((20., -10.), (20., 10.), false, None),
            ],
            some("grid"),
        ),
    );
}

#[test]
fn each_multiple_has_one_line() {
    let grid = Grid {
        region: rect(-1., 1., 2., -2.),
        parallel_spacing: number(3.),
        meridian_spacing: number(0.5),
    };
    let lines = draw_lines(grid, -2, 3, 7, 8, &multiple);
    assert_eq!(lines.len(), 8);
    for (k, i) in (-2..=3).enumerate() {
        let latitude = 3. * i as f64;
        assert_same(&lines[k], &path((-1., latitude), (1., latitude), false, None));
    }
    for (k, j) in (7..=8).enumerate() {
        let longitude = 0.5 * j as f64;
        assert_same(&lines[6 + k], &path((longitude, -2.), (longitude, 2.), false, None));
    }
    assert_eq!(draw_lines(grid, 1, 0, i32::MAX, i32::MIN, &multiple).len(), 0);
    assert_eq!(draw_lines(grid, i32::MAX - 1, i32::MAX, i32::MIN, i32::MIN, &multiple).len(), 3);
}

fn in_region(region: Option<Rect>, contents: Vec<Content>) -> Content {
    Content::Group {
        contents,
        class: None,
        bounding_box: None,
        region,
        transform: None,
        clip: None,
        frame: None,
    }
}

#[test]
fn regions_are_inherited() {
    let inner = Some(rect(-5., 5., 5., -5.));
    let content = || {
        in_region(
            None,
            vec![
                graticule(1., 2.),
                in_region(
                    inner,
                    vec![
                        Content::ClipPath { content: Box::new(graticule(3., 4.)), id: "x".to_string() },
                        in_region(None, vec![graticule(5., 6.)]),
                    ],
                ),
                graticule(7., 8.),
            ],
        )
    };
    // one line for each of them, to tell where they have come from
    let one = Ruler {
        first: |_: Number, _: Number| 1,
        last: |_: Number, spacing: Number| if float(spacing) % 2. == 0. { 1 } else { 0 },
        multiple,
    };
    let line = |x, bottom, top| group(vec![path((x, bottom), (x, top), false, None)], some("grid"));
    assert_same(
        &load_content(content(), &region(), &one).unwrap(),
        &in_region(
            None,
            vec![
                line(2., 0., 10.),
                in_region(
                    inner,
                    vec![
                        Content::ClipPath { content: Box::new(line(4., -5., 5.)), id: "x".to_string() },
                        in_region(None, vec![line(6., -5., 5.)]),
                    ],
                ),
                line(8., 0., 10.),
            ],
        ),
    );
    assert!(matches!(load_content(content(), &None, &one), Err(MapError::NoRegion)));
}

#[test]
fn the_first_error_counts() {
    let content = in_region(
        None,
        vec![
            path((0., 0.), (1., 1.), false, None),
            Content::Layer { layer: Layer { shapefile: None, ..layer(vec![]) } },
            graticule(1., 1.),
        ],
    );
    assert!(matches!(
        load_content(content, &region(), &ruler()),
        Err(MapError::ShapefileNotFound { .. })
    ));
}

fn marker(detail: Option<String>, filename: Option<String>, file: Option<String>) -> Content {
    Content::Marker {
        detail,
        filename,
        file,
        location: point(1., 2.),
        size: number(3.),
        bearing: Some(number(4.)),
        class: some("m"),
    }
}

#[test]
fn markers_get_their_details() {
    let load = |marker| load_content(marker, &None, &ruler());
    let loaded = load(marker(some("<a/>"), None, None)).unwrap();
    assert_same(&loaded, &marker(some("<a/>"), None, None));
    let loaded = load(marker(None, some("dot"), some("<svg>\n <a/>\n</svg>"))).unwrap();
    assert_same(&loaded, &marker(some("<a/>\n"), None, None));
    assert!(matches!(
        load(marker(some("<a/>"), some("dot"), None)),
        Err(MapError::DetailAndFilename)
    ));
    assert!(matches!(load(marker(None, None, None)), Err(MapError::NeitherDetailNorFilename)));
    assert!(matches!(
        load(marker(None, some("dot"), None)),
        Err(MapError::MarkerUnreadable { .. })
    ));
}

#[test]
fn loading_again_changes_nothing() {
    let content = || {
        in_region(
            None,
            vec![
                Content::Line { start: point(0., 0.), end: point(1., 1.), class: some("a") },
                Content::Rectangle { coordinates: rect(0., 1., 1., 0.), class: None },
                Content::Label { text: "x".to_string(), location: point(0., 0.), class: None },
                marker(some("<a/>"), None, None),
                path((0., 0.), (1., 1.), true, some("b")),
            ],
        )
    };
    assert_same(&load_content(content(), &None, &ruler()).unwrap(), &content());
    assert_same(&load_content(content(), &region(), &ruler()).unwrap(), &content());
}

#[test]
fn classes_can_be_read_and_set() {
    let line = path((0., 0.), (1., 1.), false, some("a"));
    assert_eq!(line.get_class(), Some(&"a".to_string()));
    let line = line.copy().set_class(some("b")).set_class(some("c"));
    assert_same(&line, &path((0., 0.), (1., 1.), false, some("c")));
    let dot = marker(some("<a/>"), None, None).set_class(None);
    assert_eq!(dot.get_class(), None);
    let label = Content::Label { text: "x".to_string(), location: point(0., 0.), class: None };
    assert_eq!(label.set_class(some("d")).get_class(), Some(&"d".to_string()));
    let clip = Content::ClipPath { content: Box::new(line), id: "x".to_string() };
    assert_eq!(clip.get_class(), None);
    assert_eq!(Content::Layer { layer: Layer { class: some("l"), ..layer(vec![]) } }.get_class(), Some(&"l".to_string()));
    assert_eq!(graticule(1., 1.).get_class(), Some(&"grid".to_string()));
    assert_eq!(in_region(None, vec![]).get_class(), None);
    assert_eq!(Content::Line { start: point(0., 0.), end: point(0., 0.), class: some("e") }.get_class(), Some(&"e".to_string()));
    assert_eq!(Content::Rectangle { coordinates: rect(0., 0., 0., 0.), class: some("f") }.get_class(), Some(&"f".to_string()));
}

#[test]
fn layers_have_defaults() {
    let town = || layer(vec![shape(ShapeType::Polygon, (1., 1.), (2., 2.), vec![])]);
    let stated = Layer { double: Some(false), self_clip: Some(false), ..town() };
    assert_same(&load(town()).unwrap(), &load(stated).unwrap());
}
