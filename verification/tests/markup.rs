use mapmaker::attributes::insert_attribute;
use mapmaker::errors::MapError;
use mapmaker::markers::{load_SVG, try_load_SVG};
use mapmaker::markup::{
    indent, join_words, prepend_to_each_line, sanitize_CSS, sanitize_XML, sanitize_lower_case,
};

/// every string of up to `most` of the pieces, one after another
fn every_string(pieces: &[&str], most: usize) -> Vec<String> {
    let mut all = vec![String::new()];
    let mut last = vec![String::new()];
    for _ in 0..most {
        let mut next = Vec::new();
        for start in &last {
            for piece in pieces {
                next.push(format!("{}{}", start, piece));
            }
        }
        all.extend(next.iter().cloned());
        last = next;
    }
    all
}

/// some longer strings of the pieces, the same ones every time
fn some_strings(pieces: &[&str], length: usize, number: usize) -> Vec<String> {
    let mut state: u64 = 0x9e37_79b9_7f4a_7c15;
    let mut all = Vec::new();
    for _ in 0..number {
        let mut string = String::new();
        for _ in 0..length {
            state = state.wrapping_mul(6364136223846793005).wrapping_add(1442695040888963407);
            string.push_str(pieces[((state >> 33) as usize) % pieces.len()]);
        }
        all.push(string);
    }
    all
}

fn unescape(text: &str) -> String {
    text.replace("&quot;", "\"")
        .replace("&apos;", "'")
        .replace("&gt;", ">")
        .replace("&lt;", "<")
        .replace("&amp;", "&")
}

#[test]
fn problematic_characters_are_escaped() {
    assert_eq!(sanitize_XML("a & b < c > d ' e \" f"), "a &amp; b &lt; c &gt; d &apos; e &quot; f");
    assert_eq!(sanitize_XML("&lt;"), "&amp;lt;");
    assert_eq!(sanitize_XML("Coeur d'Alene"), "Coeur d&apos;Alene");
    assert_eq!(sanitize_XML(""), "");
    assert_eq!(sanitize_XML("Zürich"), "Zürich");
}

#[test]
fn escaping_can_be_undone() {
    for text in every_string(&["&", "<", ">", "'", "\"", "a", "amp;"], 4) {
        let escaped = sanitize_XML(&text);
        assert_eq!(unescape(&escaped), text);
        assert!(!escaped.contains(['<', '>', '\'', '"']));
    }
}

#[test]
fn class_names_are_cleaned_up() {
    assert_eq!(sanitize_CSS("St. Paul"), "st_ paul");
    assert_eq!(sanitize_CSS("A{B}C,D.E:F;G"), "a_b_c_d_e_f_g");
    assert_eq!(sanitize_CSS("4th Street"), "_4th street");
    assert_eq!(sanitize_CSS("44"), "_44");
    assert_eq!(sanitize_CSS(".5"), "_5");
    assert_eq!(sanitize_CSS("ÅLAND"), "åland");
    assert_eq!(sanitize_CSS(""), "");
}

#[test]
fn lower_case_text_is_cleaned_up_as_well() {
    for text in every_string(&["{", "}", ",", ".", ":", ";", "a", "0", "9", " "], 3) {
        let mut expected: String = text
            .chars()
            .map(|c| if ['{', '}', ',', '.', ':', ';'].contains(&c) { '_' } else { c })
            .collect();
        if expected.starts_with(['0', '9']) {
            expected = format!("_{}", expected);
        }
        assert_eq!(sanitize_lower_case(&text), expected);
        assert_eq!(sanitize_CSS(&text), expected);
    }
}

#[test]
fn words_are_joined() {
    assert_eq!(join_words("new  york "), "new__york_");
    assert_eq!(join_words("york"), "york");
}

#[test]
fn prefixes_are_added_to_lines() {
    assert_eq!(prepend_to_each_line("a\n\nb", "> "), "> a\n> \n> b");
    assert_eq!(prepend_to_each_line("<g>\n</g>\n", "  "), "  <g>\n  </g>\n  ");
    assert_eq!(prepend_to_each_line("", "  "), "  ");
    assert_eq!(prepend_to_each_line("\n", "  "), "  \n  ");
    for text in every_string(&["a", "\n", " ", "é"], 6) {
        let expected: Vec<String> = text
            .split('\n')
            .map(|line| format!("--{}", line))
            .collect();
        assert_eq!(prepend_to_each_line(&text, "--"), expected.join("\n"));
        assert_eq!(prepend_to_each_line(&text, ""), text);
    }
}

#[test]
fn nothing_is_indented_after_the_last_newline() {
    assert_eq!(indent("<g>\n</g>\n", "  "), "  <g>\n  </g>\n");
    assert_eq!(indent("<g>\n</g>", "  "), "  <g>\n  </g>");
    assert_eq!(indent("a\n\nb\n", "> "), "> a\n> \n> b\n");
    assert_eq!(indent("a\n\n", "> "), "> a\n> \n");
    assert_eq!(indent("\n", "> "), "> \n");
    for text in every_string(&["a", "\n", " ", "é"], 5) {
        let expected = match text.strip_suffix('\n') {
            Some(body) => format!("{}\n", prepend_to_each_line(body, "--")),
            None => prepend_to_each_line(&text, "--"),
        };
        assert_eq!(indent(&text, "--"), expected);
    }
}

#[test]
fn attributes_are_inserted() {
    assert_eq!(
        insert_attribute("<rect x=\"0\"/>\n", "class", "frame").unwrap(),
        "<rect class=\"frame\" x=\"0\"/>\n"
    );
    assert_eq!(
        insert_attribute("<rect class=\"a\"/>\n", "class", "b").unwrap(),
        "<rect class=\"a b\"/>\n"
    );
    assert_eq!(
        insert_attribute("<g>\n  <path/>\n</g>\n<g id=\"x\">\n</g>\n", "class", "é").unwrap(),
        "<g class=\"é\">\n  <path/>\n</g>\n<g class=\"é\" id=\"x\">\n</g>\n"
    );
    assert_eq!(
        insert_attribute("<é/>\n<a ü=\"ü\" style=\"\"/>", "style", "b").unwrap(),
        "<é/>\n<a ü=\"ü\" style=\" b\"/>"
    );
}

#[test]
fn keys_are_whole_names() {
    assert_eq!(
        insert_attribute("<g data-class=\"z\">\n</g>\n", "class", "a").unwrap(),
        "<g class=\"a\" data-class=\"z\">\n</g>\n"
    );
    assert_eq!(
        insert_attribute("<g subclass=\"a\" class=\"b\">", "class", "c").unwrap(),
        "<g subclass=\"a\" class=\"b c\">"
    );
    assert_eq!(
        insert_attribute("<g class-name=\"a\">", "class", "b").unwrap(),
        "<g class=\"b\" class-name=\"a\">"
    );
    // what is inside a value is no attribute
    assert_eq!(
        insert_attribute("<g title='the class=\"a\"'>", "class", "b").unwrap(),
        "<g class=\"b\" title='the class=\"a\"'>"
    );
    assert_eq!(
        insert_attribute("<g title=\" class='a'\" class=\"b\">", "class", "c").unwrap(),
        "<g title=\" class='a'\" class=\"b c\">"
    );
}

#[test]
fn attributes_may_be_written_in_other_ways() {
    assert_eq!(insert_attribute("<g class='a'>", "class", "b").unwrap(), "<g class='a b'>");
    assert_eq!(insert_attribute("<g class = \"a\">", "class", "b").unwrap(), "<g class = \"a b\">");
    assert_eq!(insert_attribute("<g\nclass=\"a\">", "class", "b").unwrap(), "<g\nclass=\"a b\">");
    assert_eq!(
        insert_attribute("<g class=a>", "class", "b").unwrap(),
        "<g class=\"b\" class=a>"
    );
    // there need not be white space between two of them
    assert_eq!(
        insert_attribute("<g id=\"x\"class=\"a\">", "class", "b").unwrap(),
        "<g id=\"x\"class=\"a b\">"
    );
    // only the first one counts
    assert_eq!(
        insert_attribute("<g class=\"a\" class=\"b\">", "class", "c").unwrap(),
        "<g class=\"a c\" class=\"b\">"
    );
}

#[test]
fn attributes_need_a_tag() {
    for element in ["", "text", "  <g>\n", "</g>\n", "< g>"] {
        match insert_attribute(element, "class", "a") {
            Err(e) => assert_eq!(
                e.message(),
                format!("I couldn't find any top-level tags in the string '{}'", element)
            ),
            Ok(s) => panic!("{}", s),
        }
    }
}

#[test]
fn keys_are_no_patterns() {
    assert_eq!(insert_attribute("<g>", "(", "a").unwrap(), "<g (=\"a\">");
    assert_eq!(
        insert_attribute("<g xy=\"a\">", ".y", "b").unwrap(),
        "<g .y=\"b\" xy=\"a\">"
    );
    assert_eq!(insert_attribute("<g .y=\"a\">", ".y", "b").unwrap(), "<g .y=\"a b\">");
}

#[test]
fn values_with_quotes_add_up() {
    let both = |element: &str| {
        let once = insert_attribute(element, "class", "x'y").unwrap();
        let twice = insert_attribute(&once, "class", "z").unwrap();
        (twice, insert_attribute(element, "class", "x'y z").unwrap())
    };
    for element in ["<g title='t' class=\"a\">", "<g>", "<g title=\" t='s\" class=\"a\">", "<g class=\"a\" t='s>"] {
        let (twice, at_once) = both(element);
        assert_eq!(twice, at_once);
    }
    // a value that closes a quote is another matter
    for element in ["<g class='a'>", "<g t='s class=\"a\">"] {
        let (twice, at_once) = both(element);
        assert_ne!(twice, at_once);
    }
}

#[test]
fn values_add_up() {
    let pieces = ["<b", " class=\"x\"", " id=\"y\"", ">", "\n", " data-class=\"z\"", "text"];
    for rest in some_strings(&pieces, 8, 300) {
        let element = format!("<a{}", rest);
        if let Ok(once) = insert_attribute(&element, "class", "v") {
            assert_eq!(
                insert_attribute(&once, "class", "w").unwrap(),
                insert_attribute(&element, "class", "v w").unwrap(),
                "{}",
                element
            );
        }
    }
}

/// where the attributes of each tag at the start of a line begin and end
fn attribute_lists(text: &[char]) -> Vec<(usize, usize)> {
    let mut lists = Vec::new();
    let mut at = 0;
    while at < text.len() {
        if text[at] == '<' && (at == 0 || text[at - 1] == '\n') {
            let mut start = at + 1;
            while start < text.len() && text[start].is_ascii_alphabetic() {
                start += 1;
            }
            let mut end = start;
            while end < text.len() && text[end] != '>' {
                end += 1;
            }
            if start > at + 1 && end < text.len() {
                lists.push((start, end));
                at = end;
            }
        }
        at += 1;
    }
    lists
}

/// where the name of the attribute that starts here ends, and where its value does
fn attribute_at(text: &[char], at: usize) -> Option<(usize, usize)> {
    let skip_space = |mut i: usize| {
        while i < text.len() && text[i].is_whitespace() {
            i += 1;
        }
        i
    };
    let mut name_end = at;
    while name_end < text.len() && !text[name_end].is_whitespace() && !['=', '"', '\''].contains(&text[name_end]) {
        name_end += 1;
    }
    let equals = skip_space(name_end);
    if name_end == at || text.get(equals) != Some(&'=') {
        return None;
    }
    let open = skip_space(equals + 1);
    match text.get(open) {
        Some(&quote) if quote == '"' || quote == '\'' => {
            text[open + 1..].iter().position(|&c| c == quote).map(|length| (name_end, open + 1 + length))
        }
        _ => None,
    }
}

fn with_attribute(element: &str, key: &str, value: &str) -> Option<String> {
    let text: Vec<char> = element.chars().collect();
    let lists = attribute_lists(&text);
    if lists.is_empty() {
        return None;
    }
    let mut result = String::new();
    let mut done = 0;
    for (start, end) in lists {
        let mut place = start;
        let mut infix = format!(" {}=\"{}\"", key, value);
        let mut at = start;
        while at < end {
            match attribute_at(&text[..end], at) {
                Some((name_end, value_end)) => {
                    if text[at..name_end].iter().collect::<String>() == key {
                        place = value_end;
                        infix = format!(" {}", value);
                        break;
                    }
                    at = value_end + 1;
                }
                None => at += 1,
            }
        }
        result.extend(&text[done..place]);
        result.push_str(&infix);
        done = place;
    }
    result.extend(&text[done..]);
    Some(result)
}

fn check_attribute(element: &str, key: &str) {
    let result = insert_attribute(element, key, "v");
    match with_attribute(element, key, "v") {
        Some(expected) => assert_eq!(result.unwrap(), expected, "{}", element),
        None => assert!(result.is_err(), "{}", element),
    }
}

#[test]
fn attributes_are_inserted_in_any_text() {
    for element in every_string(&["<", "a", ">", "\n", "=\"", "\""], 5).into_iter().step_by(3) {
        check_attribute(&element, "a");
    }
}

#[test]
fn attributes_are_found_in_any_list() {
    let pieces = [" ", "a", "b", "=", "\"", "'"];
    for list in every_string(&pieces, 4) {
        check_attribute(&format!("<g {}>", list), "a");
    }
    for list in some_strings(&pieces, 9, 1000) {
        check_attribute(&format!("<g {}>", list), "a");
    }
}

#[test]
fn attributes_are_inserted_in_long_text() {
    let pieces = ["<", "a", ">", "\n", "=\"", "\"", " ", "é", "\n<a", " a=\"", " class = '", "'", "<b ", "\u{3000}"];
    for element in some_strings(&pieces, 12, 1200) {
        check_attribute(&element, "a");
        check_attribute(&element, "class");
    }
}

fn file(text: &str) -> Option<String> {
    Some(text.to_string())
}

#[test]
fn markers_are_taken_out_of_their_files() {
    assert_eq!(
        load_SVG("dot", &file("<?xml?>\n<svg a=\"b\">\n\t<g>\n\t\t<path/>\n\t</g>\n</svg>\n")).unwrap(),
        "<g>\n\t<path/>\n</g>\n"
    );
    assert_eq!(
        load_SVG("dot", &file("<svg>\n<circle/>\n  <circle/>\n</svg>")).unwrap(),
        "<circle/>\n  <circle/>\n"
    );
    // lines that are indented less stay as they are
    assert_eq!(
        load_SVG("dot", &file("<svg>\n    <g>\n  <a/>\n    </g>\n  </svg>")).unwrap(),
        "<g>\n  <a/>\n</g>\n"
    );
}

#[test]
fn markers_may_be_missing_or_malformed() {
    match load_SVG("dot", &None) {
        Err(MapError::MarkerUnreadable { filename }) => assert_eq!(filename, "dot"),
        other => panic!("{:?}", other),
    }
    for text in ["", "<svg></svg>", "<svg>\n</svg>", "<svg>\n<g/>\n", "<svg\n<g/>\n</svg>"] {
        match load_SVG("dot", &file(text)) {
            Err(MapError::MarkerMalformed { filename }) => assert_eq!(filename, "dot"),
            other => panic!("{:?}", other),
        }
    }
    for text in ["<svg>\n\n</svg>", "<svg>\ntext\n</svg>", "<svg>\n\n<g/>\n</svg>"] {
        match load_SVG("dot", &file(text)) {
            Err(MapError::MarkerWithoutTag { filename }) => assert_eq!(filename, "dot"),
            other => panic!("{:?}", other),
        }
    }
}

/// the lines inside the first `<svg>` element that has any
fn svg_body(text: &[char]) -> Option<Vec<char>> {
    let open: Vec<char> = "<svg".chars().collect();
    let close: Vec<char> = "</svg>".chars().collect();
    for at in 0..text.len() {
        if !text[at..].starts_with(&open) {
            continue;
        }
        let end = match text[at + 4..].iter().position(|&c| c == '>') {
            Some(length) => at + 4 + length,
            None => continue,
        };
        if end + 1 >= text.len() || text[end + 1] != '\n' {
            continue;
        }
        let start = end + 2;
        for last in (start..text.len()).rev() {
            if text[last] != '\n' {
                continue;
            }
            let mut next = last + 1;
            while next < text.len() && text[next].is_whitespace() {
                next += 1;
            }
            if text[next..].starts_with(&close) {
                return Some(text[start..last + 1].to_vec());
            }
        }
    }
    None
}

fn marker_detail(text: &str) -> Result<String, &'static str> {
    let text: Vec<char> = text.chars().collect();
    let body = match svg_body(&text) {
        Some(body) => body,
        None => return Err("malformed"),
    };
    let blanks = body.iter().take_while(|&&c| c == ' ' || c == '\t').count();
    if body.get(blanks) != Some(&'<') {
        return Err("no tag");
    }
    let indentation: String = body[..blanks].iter().collect();
    let body: String = body.iter().collect();
    let lines: Vec<&str> = body
        .split('\n')
        .map(|line| line.strip_prefix(indentation.as_str()).unwrap_or(line))
        .collect();
    Ok(lines.join("\n"))
}

fn check_marker(text: &str) {
    let result = try_load_SVG("dot", &file(text)).unwrap();
    match (result, marker_detail(text)) {
        (Ok(detail), Ok(expected)) => assert_eq!(detail, expected, "{}", text),
        (Err(MapError::MarkerMalformed { .. }), Err("malformed")) => {}
        (Err(MapError::MarkerWithoutTag { .. }), Err("no tag")) => {}
        (result, expected) => panic!("{}: {:?} {:?}", text, result, expected),
    }
}

#[test]
fn markers_are_taken_out_of_any_file() {
    for text in every_string(&["<svg", ">\n", "\n", "</svg>", "<a>", " "], 5).into_iter().step_by(3) {
        check_marker(&text);
    }
}

#[test]
fn markers_are_taken_out_of_long_files() {
    let pieces = ["<svg>\n", "\n", "</svg>", "<a>", " ", "\t", "\n ", "é", "\u{3000}", "<svg", ">"];
    for rest in some_strings(&pieces, 9, 2000) {
        check_marker(&format!("<svg>\n {}", rest));
    }
}

#[test]
fn every_tag_has_the_attribute_afterward() {
    let element = "<g>\n  <a/>\n</g>\n<b class=\"x\"/>\n<c id=\"y\"/>\n";
    let once = insert_attribute(element, "class", "v").unwrap();
    assert_eq!(once, "<g class=\"v\">\n  <a/>\n</g>\n<b class=\"x v\"/>\n<c class=\"v\" id=\"y\"/>\n");
    // so the next value goes to the one that is there
    assert_eq!(
        insert_attribute(&once, "class", "w").unwrap(),
        "<g class=\"v w\">\n  <a/>\n</g>\n<b class=\"x v w\"/>\n<c class=\"v w\" id=\"y\"/>\n"
    );
}

#[test]
fn markers_start_with_a_tag() {
    let pieces = ["\n", "<a>", " ", "\t", "\n ", "\n</svg>"];
    for rest in some_strings(&pieces, 7, 1000) {
        if let Ok(detail) = load_SVG("dot", &file(&format!("<svg>\n \t<b>{}\n</svg>", rest))) {
            assert!(detail.starts_with("<b>"));
        }
    }
}
