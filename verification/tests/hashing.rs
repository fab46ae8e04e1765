use jcode_hashline::content::strip_write_content;
use jcode_hashline::format::{
    compute_file_hash, format_hashline_header, format_numbered_line, format_numbered_lines,
    normalize_file_hash_text, parse_hashline_header, split_addressable_file_lines, tag_of_digest,
};

#[test]
fn collide_pair_shares_1d84() {
    let a = "line one 263\nline two 4471\n";
    let b = "line one 410\nline two 6970\n";
    assert_eq!(compute_file_hash(a), compute_file_hash(b));
    assert_eq!(compute_file_hash(a), "1D84");
}

#[test]
fn trailing_ws_does_not_change_hash() {
    assert_eq!(
        compute_file_hash("hello  \nworld\t"),
        compute_file_hash("hello\nworld")
    );
}

#[test]
fn addressable_lines_drop_terminal_newline() {
    assert_eq!(split_addressable_file_lines("a\nb\n"), ["a", "b"]);
    assert_eq!(split_addressable_file_lines("a\nb\n\n"), ["a", "b", ""]);
    assert_eq!(format_numbered_lines("a\n\nb\n", 1), "1:a\n2:\n3:b\n4:");
}

#[test]
fn tags_are_the_low_half_of_the_digest() {
    for text in ["", "a", "hello\nworld\n", "\u{5b57}\u{1f600}"] {
        let digest = xxhash_rust::xxh32::xxh32(text.as_bytes(), 0);
        assert_eq!(compute_file_hash(text), format!("{:04X}", digest & 0xffff));
    }
    assert_eq!(tag_of_digest(0xABCD_0E0F), "0E0F");
    assert_eq!(tag_of_digest(0), "0000");
}

#[test]
fn hash_text_has_no_padding() {
    assert_eq!(normalize_file_hash_text("a \t\r\n\tb\n \n"), "a\n\tb\n\n");
    let once = normalize_file_hash_text("x \r\n y\t");
    assert_eq!(normalize_file_hash_text(&once), once);
}

#[test]
fn headers_read_back() {
    for path in ["a.rs", "dir/with space.rs", "odd[1]#2.txt", "x"] {
        let tag = compute_file_hash(path);
        let header = format_hashline_header(path, &tag);
        assert_eq!(header, format!("[{path}#{tag}]"));
        assert_eq!(
            parse_hashline_header(&header),
            Some((path.to_string(), Some(tag)))
        );
    }
}

#[test]
fn headers_are_read_with_any_tag() {
    for (tag, upper) in [("1a2b", "1A2B"), ("ffff", "FFFF"), ("0000", "0000"), ("aBcD", "ABCD")] {
        assert_eq!(
            parse_hashline_header(&format_hashline_header("src/a b.rs", tag)),
            Some(("src/a b.rs".to_string(), Some(upper.to_string())))
        );
    }
}

#[test]
fn shapes_of_headers() {
    let read = |s: &str| parse_hashline_header(s);
    let some = |p: &str, t: Option<&str>| Some((p.to_string(), t.map(str::to_string)));
    assert_eq!(read("  [ a.rs # 1a2b ]  "), some("a.rs", Some("1A2B")));
    assert_eq!(read("[a.rs#]"), some("a.rs", None));
    assert_eq!(read("[a.rs]"), some("a.rs", None));
    assert_eq!(read("[a#12345]"), some("a#12345", None));
    assert_eq!(read("[a#xyz1]"), some("a#xyz1", None));
    assert_eq!(read("[#1A2B]"), None);
    assert_eq!(read("[]"), None);
    assert_eq!(read("["), None);
    assert_eq!(read("a.rs#1A2B"), None);
}

#[test]
fn numbered_lines() {
    assert_eq!(format_numbered_line(12, "x: y"), "12:x: y");
    assert_eq!(format_numbered_lines("a\nb", 99), "99:a\n100:b");
}

#[test]
fn copied_reads_are_restored() {
    for text in ["a\nb\n", "", "x", "1:2\n\n3:4", "[b]\n"] {
        let rows = format_numbered_lines(text, 1);
        assert_eq!(strip_write_content(&rows), text);
        let header = format_hashline_header("a.rs", &compute_file_hash(text));
        assert_eq!(strip_write_content(&format!("{header}\n{rows}")), text);
        let header = format_hashline_header("a.rs", "1aB2");
        assert_eq!(strip_write_content(&format!("{header}\n{rows}")), text);
    }
}

#[test]
fn other_content_is_stored_as_it_is() {
    assert_eq!(strip_write_content("1:a\nb\n"), "1:a\nb\n");
    assert_eq!(strip_write_content("fn f() {}\n"), "fn f() {}\n");
    assert_eq!(strip_write_content("\n\n"), "\n\n");
    assert_eq!(strip_write_content("[a.rs#1A2B]\nfn f() {}\n"), "fn f() {}\n");
    assert_eq!(strip_write_content("1:a\n\n3:b\n"), "a\n\nb\n");
    assert_eq!(strip_write_content("[package]\nname = 1"), "[package]\nname = 1");
    assert_eq!(strip_write_content("[dependencies]\n"), "[dependencies]\n");
    assert_eq!(strip_write_content("[a.rs]\n1:a\n2:b"), "[a.rs]\n1:a\n2:b");
}
