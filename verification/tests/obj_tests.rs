use raster3d::obj::parse_face_index;

#[test]
fn plain_vertex_number() {
    assert_eq!(parse_face_index(b"7"), Some(6));
    assert_eq!(parse_face_index(b"1"), Some(0));
    assert_eq!(parse_face_index(b"120"), Some(119));
}

#[test]
fn texture_and_normal_references_are_ignored() {
    assert_eq!(parse_face_index(b"7/2/5"), Some(6));
    assert_eq!(parse_face_index(b"12//3"), Some(11));
    assert_eq!(parse_face_index(b"3/x"), Some(2));
}

#[test]
fn leading_plus_is_accepted() {
    assert_eq!(parse_face_index(b"+3"), Some(2));
    assert_eq!(parse_face_index(b"+"), None);
}

#[test]
fn rejected_tokens() {
    assert_eq!(parse_face_index(b"0"), None);
    assert_eq!(parse_face_index(b""), None);
    assert_eq!(parse_face_index(b"/1"), None);
    assert_eq!(parse_face_index(b"-1"), None);
    assert_eq!(parse_face_index(b"1a"), None);
    assert_eq!(parse_face_index(b"++1"), None);
    assert_eq!(parse_face_index(b" 1"), None);
}

#[test]
fn agrees_with_std_parser() {
    let tokens = ["5", "+5", "0", "00012", "x", "", "/", "9/", "-0", "99999999999999999999999"];
    for t in tokens {
        let expected = t.split('/').next().unwrap().parse::<usize>().ok().and_then(|n| n.checked_sub(1));
        assert_eq!(parse_face_index(t.as_bytes()), expected, "token {:?}", t);
    }
}

#[test]
fn largest_and_overflowing_numbers() {
    let max = usize::MAX.to_string();
    assert_eq!(parse_face_index(max.as_bytes()), Some(usize::MAX - 1));
    let over = format!("{}0", max);
    assert_eq!(parse_face_index(over.as_bytes()), None);
}

use raster3d::obj::{parse_obj_line, ObjLine, Span};

/// What the std-based reading of a line gives: `None` where it panics.
fn reference(line: &str, vertex_count: usize) -> Option<ObjLine> {
    let parts: Vec<&str> = line.split_whitespace().collect();
    if parts.is_empty() {
        return Some(ObjLine::Other);
    }
    match parts[0] {
        "v" => {
            if parts.len() < 4 {
                return None;
            }
            let span = |t: &str| {
                let start = t.as_ptr() as usize - line.as_ptr() as usize;
                Span { start, end: start + t.len() }
            };
            Some(ObjLine::Vertex(span(parts[1]), span(parts[2]), span(parts[3])))
        }
        "f" => {
            if parts.len() < 4 {
                return None;
            }
            let idx = |t: &str| -> Option<usize> {
                let n = t.split('/').next().unwrap().parse::<usize>().ok()?.checked_sub(1)?;
                if n < vertex_count { Some(n) } else { None }
            };
            Some(ObjLine::Face(idx(parts[1])?, idx(parts[2])?, idx(parts[3])?))
        }
        _ => Some(ObjLine::Other),
    }
}

#[test]
fn vertex_line_gives_coordinate_spans() {
    let line = "v 1.5 -2 3e1";
    assert_eq!(
        parse_obj_line(line.as_bytes(), 0),
        ObjLine::Vertex(Span { start: 2, end: 5 }, Span { start: 6, end: 8 }, Span { start: 9, end: 12 })
    );
}

#[test]
fn face_line_gives_indices() {
    assert_eq!(parse_obj_line(b"f 1 2/5 3//7", 3), ObjLine::Face(0, 1, 2));
    assert_eq!(parse_obj_line(b"f 1 2 3 4", 4), ObjLine::Face(0, 1, 2));
}

#[test]
fn face_beyond_read_vertices_is_malformed() {
    assert_eq!(parse_obj_line(b"f 1 2 4", 3), ObjLine::Malformed);
    assert_eq!(parse_obj_line(b"f 0 1 2", 3), ObjLine::Malformed);
}

#[test]
fn short_lines_are_malformed() {
    assert_eq!(parse_obj_line(b"v 1 2", 0), ObjLine::Malformed);
    assert_eq!(parse_obj_line(b"f 1 2", 5), ObjLine::Malformed);
}

#[test]
fn other_lines() {
    assert_eq!(parse_obj_line(b"", 0), ObjLine::Other);
    assert_eq!(parse_obj_line(b"   \t ", 0), ObjLine::Other);
    assert_eq!(parse_obj_line(b"# comment", 0), ObjLine::Other);
    assert_eq!(parse_obj_line(b"vn 0 1 0", 0), ObjLine::Other);
    assert_eq!(parse_obj_line(b"vt 0 1", 0), ObjLine::Other);
    assert_eq!(parse_obj_line(b"o cube", 0), ObjLine::Other);
}

#[test]
fn agrees_with_split_whitespace() {
    let lines = [
        "v 0 0 0",
        "  v\t1.0   2.0 3.0  ",
        "v 1 2 3 4",
        "f 1 2 3",
        "f\t3/1/1 2/2/2 1/3/3\r",
        "f 1 2",
        "f 1 2 x",
        "f +1 2 3",
        "v",
        "",
        "\u{a0}v\u{2003}1\u{3000}2\u{85}3\u{202f}",
        "f\u{1680}1\u{2028}2\u{2029}3\u{205f}",
        "v\u{200a}1 2 3",
        "v\u{200b}1 2 3",
        "é v 1 2 3",
        "ve 1 2 3",
        "\u{b}v 1 2\u{c}3",
    ];
    for line in lines {
        let expected = reference(line, 3).unwrap_or(ObjLine::Malformed);
        assert_eq!(parse_obj_line(line.as_bytes(), 3), expected, "line {:?}", line);
    }
}
