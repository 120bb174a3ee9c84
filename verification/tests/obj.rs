use rotation_renderer::obj::{
    face_triangles, parse_face_reference, parse_usize, read_obj_line, split_at_char,
    split_whitespace, FaceReference, IntErrorKind, ObjLine,
};

fn reference(position: usize, texture: usize, normal: usize) -> FaceReference {
    FaceReference { position, texture, normal }
}

#[test]
fn split_whitespace_gives_the_words() {
    assert_eq!(split_whitespace("  v 1.0\t2.5  -3 "), vec!["v", "1.0", "2.5", "-3"]);
    assert_eq!(split_whitespace("f\u{3000}1/2/3\u{a0}4"), vec!["f", "1/2/3", "4"]);
    assert!(split_whitespace(" \t\r\n").is_empty());
    assert!(split_whitespace("").is_empty());
}

#[test]
fn split_whitespace_agrees_with_std() {
    for line in ["a  b", "\u{85}x\u{2028}y\u{200a}", "one", "  lead", "trail  ", "é ü"] {
        let expected: Vec<String> = line.split_whitespace().map(|w| w.to_string()).collect();
        assert_eq!(split_whitespace(line), expected, "{:?}", line);
    }
}

#[test]
fn split_at_char_keeps_empty_pieces() {
    assert_eq!(split_at_char("1/2/3", '/'), vec!["1", "2", "3"]);
    assert_eq!(split_at_char("1//3", '/'), vec!["1", "", "3"]);
    assert_eq!(split_at_char("/", '/'), vec!["", ""]);
    assert_eq!(split_at_char("", '/'), vec![""]);
    assert_eq!(split_at_char("7", '/'), vec!["7"]);
}

#[test]
fn parse_usize_reads_decimal_numbers() {
    assert_eq!(parse_usize("42"), Ok(42));
    assert_eq!(parse_usize("+7"), Ok(7));
    assert_eq!(parse_usize("007"), Ok(7));
    assert_eq!(parse_usize("18446744073709551615"), Ok(usize::MAX));
}

#[test]
fn parse_usize_reports_the_first_problem() {
    assert_eq!(parse_usize(""), Err(IntErrorKind::Empty));
    assert_eq!(parse_usize("+"), Err(IntErrorKind::InvalidDigit));
    assert_eq!(parse_usize("-"), Err(IntErrorKind::InvalidDigit));
    assert_eq!(parse_usize("-1"), Err(IntErrorKind::InvalidDigit));
    assert_eq!(parse_usize("1x"), Err(IntErrorKind::InvalidDigit));
    assert_eq!(parse_usize("18446744073709551616"), Err(IntErrorKind::PosOverflow));
    assert_eq!(parse_usize("99999999999999999999x"), Err(IntErrorKind::PosOverflow));
}

#[test]
fn parse_usize_agrees_with_std() {
    for text in ["0", "12", "+3", "", "+", "-", "-4", "a", "5a", "18446744073709551616", "1 "] {
        let expected = text.parse::<usize>().map_err(|e| format!("{:?}", e.kind()));
        let got = parse_usize(text).map_err(|e| format!("{:?}", e));
        assert_eq!(got, expected, "{:?}", text);
    }
}

#[test]
fn parse_face_reference_reads_the_three_numbers() {
    assert_eq!(parse_face_reference("3/2/1"), Ok(reference(3, 2, 1)));
    assert_eq!(parse_face_reference("3"), Ok(reference(3, 0, 0)));
    assert_eq!(parse_face_reference("3//5"), Ok(reference(3, 0, 5)));
    assert_eq!(parse_face_reference("3/x/5/9"), Ok(reference(3, 0, 5)));
    assert_eq!(parse_face_reference("x/1/1"), Err(IntErrorKind::InvalidDigit));
    assert_eq!(parse_face_reference("/1/1"), Err(IntErrorKind::Empty));
}

#[test]
fn read_obj_line_sorts_lines_by_keyword() {
    assert!(matches!(read_obj_line("v 1 2 3"), Ok(ObjLine::Position(f)) if f == vec!["1", "2", "3"]));
    assert!(matches!(read_obj_line("vn 0 1 0"), Ok(ObjLine::Normal(f)) if f == vec!["0", "1", "0"]));
    assert!(matches!(read_obj_line("vt 0.5 1"), Ok(ObjLine::TexturePosition(f)) if f == vec!["0.5", "1"]));
    assert!(matches!(read_obj_line("# a comment"), Ok(ObjLine::Other)));
    assert!(matches!(read_obj_line("   "), Ok(ObjLine::Other)));
    assert!(matches!(read_obj_line("vp 1 2"), Ok(ObjLine::Other)));
}

#[test]
fn read_obj_line_reads_faces() {
    match read_obj_line("f 1/1/1 2//2 3") {
        Ok(ObjLine::Face(refs)) => {
            assert_eq!(refs, vec![reference(1, 1, 1), reference(2, 0, 2), reference(3, 0, 0)]);
        }
        other => panic!("unexpected {:?}", other),
    }
    assert!(matches!(read_obj_line("f 1 2 a 4"), Err(IntErrorKind::InvalidDigit)));
    assert!(matches!(read_obj_line("f"), Ok(ObjLine::Face(refs)) if refs.is_empty()));
}

#[test]
fn face_triangles_splits_quads() {
    assert_eq!(face_triangles(3), vec![[0, 1, 2]]);
    assert_eq!(face_triangles(4), vec![[0, 1, 2], [0, 2, 3]]);
    assert!(face_triangles(5).is_empty());
    assert!(face_triangles(2).is_empty());
}
