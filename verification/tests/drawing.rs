use mapmaker::content::{Content, Layer};
use mapmaker::decimals::{draw_content, Notation};
use mapmaker::document::Document;
use mapmaker::drawing::{
    count_elements, finish_element, transcribe_content_as_svg, transcribe_path, wrap_in_clip_path,
    BoxText, Drawing, PointText,
};
use mapmaker::errors::MapError;
use mapmaker::geometry::{Rect, SerializablePoint};
use mapmaker::number::Number;

fn s(text: &str) -> String {
    text.to_string()
}

fn point(x: &str, y: &str) -> PointText<String> {
    PointText { x: s(x), y: s(y) }
}

fn boks(left: &str, top: &str, width: &str, height: &str) -> BoxText<String> {
    BoxText { left: s(left), top: s(top), width: s(width), height: s(height) }
}

fn outer() -> BoxText<String> {
    boks("0.00", "1.00", "20.00", "30.00")
}

fn transcribe(drawing: &Drawing) -> String {
    let mut count = 0;
    let text = transcribe_content_as_svg(drawing, &outer(), &mut count).unwrap();
    assert_eq!(Some(count), count_elements(drawing, 0));
    text
}

fn line(class: Option<&str>) -> Drawing {
    Drawing::Line {
        start: point("1.00", "2.00"),
        end: point("3.00", "-4.00"),
        class: class.map(s),
    }
}

fn label(text: &str) -> Drawing {
    Drawing::Label { text: s(text), location: point("5.00", "6.00"), class: None }
}

fn group(contents: Vec<Drawing>, clip: Option<bool>, frame: Option<bool>) -> Drawing {
    Drawing::Group { contents, class: None, bounding_box: None, clip, frame }
}

fn path(parts: Vec<Vec<PointText<String>>>, closed: bool, self_clip: bool) -> Drawing {
    Drawing::Path { parts, closed, self_clip, class: None }
}

fn triangle() -> Vec<PointText<String>> {
    vec![point("0", "0"), point("1", "0"), point("1", "2"), point("0", "0")]
}

#[test]
fn plain_elements_are_transcribed() {
    assert_eq!(
        transcribe(&line(Some("Main St."))),
        "  <line class=\"main st_\" x1=\"1.00\" y1=\"2.00\" x2=\"3.00\" y2=\"-4.00\"/>\n"
    );
    assert_eq!(
        transcribe(&Drawing::Rectangle {
            coordinates: boks("1.00", "2.00", "3.00", "4.00"),
            class: None
        }),
        "  <rect x=\"1.00\" y=\"2.00\" width=\"3.00\" height=\"4.00\"/>\n"
    );
    assert_eq!(
        transcribe(&label("R&amp;D")),
        "  <text x=\"5.00\" y=\"6.00\">R&amp;D</text>\n"
    );
}

#[test]
fn markers_are_transcribed() {
    let marker = |detail: Option<&str>, bearing: Option<&str>| Drawing::Marker {
        detail: detail.map(s),
        location: point("1.00", "2.00"),
        scale: s("1.4142"),
        bearing: bearing.map(s),
        class: Some(s("town")),
    };
    assert_eq!(
        transcribe(&marker(Some("<g class=\"a\">\n  <circle/>\n</g>\n<b/>\n"), Some("12.5"))),
        "  <g transform=\"translate(1.00, 2.00) scale(1.4142) rotate(12.5)\" class=\"a town\">\n    <circle/>\n  </g>\n  <b class=\"town\" transform=\"translate(1.00, 2.00) scale(1.4142) rotate(12.5)\"/>\n"
    );
    assert_eq!(
        transcribe(&marker(Some("<b/>"), None)),
        "  <b class=\"town\" transform=\"translate(1.00, 2.00) scale(1.4142) rotate(0.0)\"/>"
    );
    let mut count = 0;
    assert!(matches!(
        transcribe_content_as_svg(&marker(None, None), &outer(), &mut count),
        Err(MapError::MarkerNotLoaded)
    ));
    assert!(matches!(
        transcribe_content_as_svg(&marker(Some("b"), None), &outer(), &mut count),
        Err(MapError::NoTopLevelTag { .. })
    ));
    assert_eq!(count, 0);
}

#[test]
fn paths_are_transcribed() {
    assert_eq!(
        transcribe(&path(vec![triangle(), vec![point("7", "8"), point("9", "9")]], false, false)),
        "  <path d=\"M0,0 L1,0 L1,2 L0,0 M7,8 L9,9 \"/>\n"
    );
    assert_eq!(
        transcribe(&path(vec![triangle(), vec![point("7", "8"), point("9", "9")]], true, false)),
        "  <path d=\"M0,0 L1,0 L1,2 ZM7,8 Z\"/>\n"
    );
    assert_eq!(
        transcribe(&path(vec![vec![point("7", "8")], vec![]], true, false)),
        "  <path d=\"M7,8 \"/>\n"
    );
    assert_eq!(transcribe(&path(vec![], true, false)), "  <path d=\"\"/>\n");
    assert_eq!(
        transcribe_path(&vec![triangle()], true, true, 12).unwrap(),
        "<clipPath id=\"clip_path_12\">\n<path d=\"M0,0 L1,0 L1,2 Z\"/>\n</clipPath>\n<path style=\"clip-path: url(#clip_path_12)\" d=\"M0,0 L1,0 L1,2 Z\"/>\n"
    );
}

#[test]
fn groups_are_transcribed() {
    assert_eq!(transcribe(&group(vec![], Some(false), None)), "  <g>\n  </g>\n");
    assert_eq!(
        transcribe(&group(vec![label("a")], Some(false), Some(false))),
        "  <g>\n    <text x=\"5.00\" y=\"6.00\">a</text>\n  </g>\n"
    );
    assert_eq!(
        transcribe(&group(vec![], None, None)),
        "  <clipPath id=\"clip_path_0\">\n    <rect x=\"0.00\" y=\"1.00\" width=\"20.00\" height=\"30.00\"/>\n  </clipPath>\n  <g clip-path=\"url(#clip_path_0)\">\n  </g>\n"
    );
    let framed = Drawing::Group {
        contents: vec![label("a")],
        class: Some(s("1st")),
        bounding_box: Some(boks("2.00", "2.00", "3.00", "3.00")),
        clip: Some(false),
        frame: Some(true),
    };
    assert_eq!(
        transcribe(&framed),
        "  <g class=\"_1st\">\n  <rect class=\"background _1st\" x=\"2.00\" y=\"2.00\" width=\"3.00\" height=\"3.00\"/>\n    <text x=\"5.00\" y=\"6.00\">a</text>\n  <rect class=\"frame _1st\" x=\"2.00\" y=\"2.00\" width=\"3.00\" height=\"3.00\"/>\n  </g>\n"
    );
}

#[test]
fn boxes_are_inherited() {
    let inner = Drawing::Group {
        contents: vec![group(vec![], None, None)],
        class: None,
        bounding_box: Some(boks("a", "b", "c", "d")),
        clip: Some(false),
        frame: None,
    };
    assert_eq!(
        transcribe(&inner),
        "  <g>\n    <clipPath id=\"clip_path_0\">\n      <rect x=\"a\" y=\"b\" width=\"c\" height=\"d\"/>\n    </clipPath>\n    <g clip-path=\"url(#clip_path_0)\">\n    </g>\n  </g>\n"
    );
}

#[test]
fn elements_are_counted() {
    let drawing = group(
        vec![
            label("a"),
            group(vec![label("b"), label("c")], Some(false), None),
            path(vec![], false, true),
        ],
        Some(false),
        None,
    );
    let mut count = 5;
    let text = transcribe_content_as_svg(&drawing, &outer(), &mut count).unwrap();
    assert_eq!(count, 11);
    assert_eq!(count_elements(&drawing, 5), Some(11));
    // two labels and a group with two labels in it come before the path
    assert!(text.contains("clip_path_9"));
    assert_eq!(count_elements(&drawing, u32::MAX - 6), Some(u32::MAX));
    assert_eq!(count_elements(&drawing, u32::MAX - 5), None);
    assert_eq!(count_elements(&label("a"), u32::MAX), None);
    let clip = Drawing::ClipPath { content: Box::new(drawing), id: s("x") };
    assert_eq!(count_elements(&clip, 0), Some(7));
}

#[test]
fn what_was_done_before_an_error_stays_counted() {
    let drawing = group(
        vec![label("a"), label("b"), Drawing::Layer { class: None }, label("c")],
        Some(false),
        None,
    );
    let mut count = 0;
    assert!(matches!(
        transcribe_content_as_svg(&drawing, &outer(), &mut count),
        Err(MapError::LayerNotDrawn)
    ));
    assert_eq!(count, 2);
    assert!(matches!(
        transcribe_content_as_svg(&Drawing::Graticule { class: None }, &outer(), &mut count),
        Err(MapError::GraticuleNotDrawn)
    ));
    assert_eq!(count, 2);
}

#[test]
fn clip_paths_have_no_hierarchy() {
    let drawing = Drawing::ClipPath {
        content: Box::new(group(vec![line(None), path(vec![triangle()], false, false)], None, None)),
        id: s("coast"),
    };
    assert_eq!(
        transcribe(&drawing),
        "  <clipPath id=\"coast\">\n      <line x1=\"1.00\" y1=\"2.00\" x2=\"3.00\" y2=\"-4.00\"/>\n      <path d=\"M0,0 L1,0 L1,2 L0,0 \"/>\n  </clipPath>\n"
    );
}

#[test]
fn classes_are_tacked_on() {
    assert_eq!(finish_element("<g>\n</g>\n", &Some(s("a"))).unwrap(), "  <g class=\"a\">\n  </g>\n");
    assert_eq!(finish_element("text\n", &None).unwrap(), "  text\n");
    assert!(matches!(
        finish_element("text\n", &Some(s("a"))),
        Err(MapError::NoTopLevelTag { .. })
    ));
}

/// everything from the first `<clipPath>` to the last `</clipPath>` gone, and then every line that
/// ends in a tag that doesn't close itself, where a line of nothing but `>` belongs to the one before
fn flattened(content: &str) -> String {
    let mut content = content.to_string();
    let mut from = 0;
    while let Some(at) = content[from..].find("<clipPath") {
        let start = from + at;
        match content[start..].find('>') {
            Some(end) => {
                let inside = start + end + 1;
                if let Some(last) = content[inside..].rfind("</clipPath>") {
                    let mut rest = inside + last + "</clipPath>".len();
                    if content[rest..].starts_with('\n') {
                        rest += 1;
                    }
                    content.replace_range(start..rest, "");
                    break;
                }
                from = start + 1;
            }
            None => break,
        }
    }
    let lines: Vec<&str> = content.split_inclusive('\n').collect();
    let mut result = String::new();
    let mut i = 0;
    while i < lines.len() {
        let line = lines[i];
        i += 1;
        if line.ends_with('\n') && lines.get(i) == Some(&">\n") {
            i += 1;
        } else if !line.ends_with(">\n") || line.ends_with("/>\n") || line == ">\n" {
            result.push_str(line);
        }
    }
    result
}

#[test]
fn clip_paths_are_taken_out_of_any_text() {
    let pieces = ["<clipPath", ">", "</clipPath>", "\n", "x", "/>"];
    let mut texts = vec![String::new()];
    let mut last = vec![String::new()];
    for _ in 0..5 {
        let mut next = Vec::new();
        for start in &last {
            for piece in pieces {
                next.push(format!("{}{}", start, piece));
            }
        }
        texts.extend(next.iter().cloned());
        last = next;
    }
    // of the longest ones, every fifth will do
    let shorter = texts.len() - last.len();
    for (_, text) in texts.into_iter().enumerate().filter(|(i, _)| *i < shorter || i % 5 == 0) {
        assert_eq!(
            wrap_in_clip_path(&text, "é"),
            format!("<clipPath id=\"é\">\n{}</clipPath>\n", flattened(&text)),
            "{}",
            text
        );
    }
}

#[test]
fn documents_are_assembled() {
    let page = boks("-1.00", "-2.00", "210.00", "297.00");
    let mut document = Document::new(&page, "The Map", "all of it", "    g { fill: none; }");
    assert_eq!(document.element_count(), 0);
    document.draw(&line(None), &outer()).unwrap();
    document.draw(&group(vec![label("a")], None, None), &outer()).unwrap();
    assert!(document.draw(&Drawing::Layer { class: None }, &outer()).is_err());
    assert_eq!(document.element_count(), 3);
    assert_eq!(
        document.finish(),
        "\
<svg viewBox=\"-1.00 -2.00 210.00 297.00\" width=\"210.00mm\" height=\"297.00mm\" xmlns=\"http://www.w3.org/2000/svg\" version=\"1.1\">
  <title>The Map</title>
  <desc>all of it</desc>
  <style>
    g { fill: none; }
  </style>
    <line x1=\"1.00\" y1=\"2.00\" x2=\"3.00\" y2=\"-4.00\"/>
    <clipPath id=\"clip_path_1\">
      <rect x=\"0.00\" y=\"1.00\" width=\"20.00\" height=\"30.00\"/>
    </clipPath>
    <g clip-path=\"url(#clip_path_1)\">
      <text x=\"5.00\" y=\"6.00\">a</text>
    </g>
</svg>
"
    );
}

#[test]
fn groups_have_defaults() {
    let same = |a: &Drawing, b: &Drawing| assert_eq!(transcribe(a), transcribe(b));
    same(&group(vec![label("a")], None, None), &group(vec![label("a")], Some(true), Some(false)));
    same(&group(vec![], None, Some(true)), &group(vec![], Some(true), Some(true)));
}

#[test]
fn everything_is_indented() {
    let drawing = group(vec![line(None), group(vec![label("a")], None, Some(true))], None, None);
    for line in transcribe(&drawing).strip_suffix('\n').unwrap().split('\n') {
        assert!(line.starts_with("  "));
    }
    // so is what is empty in the middle
    assert_eq!(finish_element("<a>\n\n</a>\n", &None).unwrap(), "  <a>\n  \n  </a>\n");
    assert_eq!(finish_element("<a/>", &None).unwrap(), "  <a/>");
}

fn number(x: f64) -> Number {
    Number { bits: x.to_bits() }
}

fn float(n: Number) -> f64 {
    f64::from_bits(n.bits)
}

fn at(x: f64, y: f64) -> SerializablePoint {
    SerializablePoint { x: number(x), y: number(y) }
}

fn square(size: f64) -> Rect {
    Rect { left: number(0.), right: number(size), top: number(size), bottom: number(0.) }
}

fn draw(content: Content) -> Drawing {
    let notation = Notation {
        point: |p: SerializablePoint| PointText {
            x: format!("{:.2}", float(p.x)),
            y: format!("{:.2}", float(p.y)),
        },
        boks: |b: Rect| BoxText {
            left: format!("{:.1}", float(b.left)),
            top: format!("{:.1}", float(b.top)),
            width: format!("{:.1}", float(b.right) - float(b.left)),
            height: format!("{:.1}", float(b.bottom) - float(b.top)),
        },
        scale: |n: Number| format!("{:.4}", float(n).sqrt()),
        bearing: |n: Number| format!("{:.1}", float(n)),
    };
    draw_content(content, &notation)
}

#[test]
fn numbers_are_written_out() {
    let marker = |bearing: Option<f64>| Content::Marker {
        detail: Some(s("<a/>")),
        filename: None,
        file: None,
        location: at(1., 2.),
        size: number(2.),
        bearing: bearing.map(number),
        class: Some(s("m")),
    };
    let content = Content::Group {
        contents: vec![
            Content::Line { start: at(1., 2.), end: at(3., -4.), class: Some(s("l")) },
            Content::Rectangle { coordinates: square(3.), class: None },
            Content::Path {
                parts: vec![vec![at(0.125, 0.), at(1., 1.)], vec![]],
                closed: true,
                self_clip: false,
                decimation: None,
                class: None,
            },
            marker(None),
            marker(Some(12.34)),
            Content::ClipPath {
                content: Box::new(Content::Label { text: s("x"), location: at(5., 6.), class: None }),
                id: s("i"),
            },
        ],
        class: Some(s("g")),
        bounding_box: Some(square(10.)),
        region: None,
        transform: None,
        clip: None,
        frame: Some(true),
    };
    let marker = |bearing: Option<&str>| Drawing::Marker {
        detail: Some(s("<a/>")),
        location: point("1.00", "2.00"),
        scale: s("1.4142"),
        bearing: bearing.map(s),
        class: Some(s("m")),
    };
    let expected = Drawing::Group {
        contents: vec![
            line(Some("l")),
            Drawing::Rectangle { coordinates: boks("0.0", "3.0", "3.0", "-3.0"), class: None },
            path(vec![vec![point("0.12", "0.00"), point("1.00", "1.00")], vec![]], true, false),
            marker(None),
            marker(Some("12.3")),
            Drawing::ClipPath { content: Box::new(label("x")), id: s("i") },
        ],
        class: Some(s("g")),
        bounding_box: Some(boks("0.0", "10.0", "10.0", "-10.0")),
        clip: None,
        frame: Some(true),
    };
    assert_eq!(format!("{:?}", draw(content)), format!("{:?}", expected));
}

#[test]
fn what_should_have_been_loaded_is_drawn_as_such() {
    let content = Content::Graticule {
        parallel_spacing: number(1.),
        meridian_spacing: number(1.),
        class: Some(s("g")),
    };
    assert!(matches!(draw(content), Drawing::Graticule { class: Some(_) }));
    let layer = Layer {
        filename: s("towns"),
        class: Some(s("l")),
        class_column: None,
        label_column: None,
        case: None,
        abbr: None,
        marker_name: None,
        size: None,
        double: None,
        self_clip: None,
        decimation: None,
        filters: None,
        marker_file: None,
        shapefile: None,
    };
    let drawing = draw(Content::Layer { layer });
    assert_eq!(drawing.get_class(), Some(&s("l")));
    assert!(matches!(drawing, Drawing::Layer { .. }));
}
