use jcode_hashline::normalize::{
    detect_line_ending, normalize_to_lf, restore_line_endings, strip_bom, LineEnding,
};

#[test]
fn byte_order_marks() {
    assert_eq!(strip_bom("\u{FEFF}a"), ("\u{FEFF}", "a"));
    assert_eq!(strip_bom("a\u{FEFF}"), ("", "a\u{FEFF}"));
    assert_eq!(strip_bom(""), ("", ""));
}

#[test]
fn the_first_break_decides() {
    assert_eq!(detect_line_ending("a\r\nb\n"), LineEnding::CrLf);
    assert_eq!(detect_line_ending("a\nb\r\n"), LineEnding::Lf);
    assert_eq!(detect_line_ending("a"), LineEnding::Lf);
}

#[test]
fn line_endings_round_trip() {
    for raw in ["a\r\nb\r\n", "\r\n\r\n", "a\r\n"] {
        let text = normalize_to_lf(raw);
        assert!(!text.contains('\r'));
        assert_eq!(normalize_to_lf(&text), text);
        assert_eq!(restore_line_endings(&text, detect_line_ending(raw)), raw);
    }
    assert_eq!(normalize_to_lf("a\nb\n"), "a\nb\n");
    assert_eq!(normalize_to_lf("a\rb\r\r\nc"), "a\nb\n\nc");
    assert_eq!(restore_line_endings("a\nb\n", LineEnding::Lf), "a\nb\n");
    assert_eq!(restore_line_endings("a\nb\n", LineEnding::CrLf), "a\r\nb\r\n");
}
