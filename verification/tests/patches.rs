use jcode_hashline::apply::apply_edits;
use jcode_hashline::parse::{parse_input, parse_patch, parse_patch_streaming};
use jcode_hashline::scan::parse_lid;
use jcode_hashline::seen::collect_anchor_lines;
use jcode_hashline::types::{
    Anchor, BlockMode, Clipboard, Cursor, Edit, FileOp, ParsedRange, PasteTarget,
};

fn apply_patch(text: &str, diff: &str) -> String {
    apply_edits(text, &parse_patch(diff).unwrap().edits, None).unwrap().text
}

fn parse_error(diff: &str) -> String {
    parse_patch(diff).unwrap_err().message()
}

fn anchor(line: usize) -> Anchor {
    Anchor { line }
}

#[test]
fn replaces_concrete_range() {
    assert_eq!(
        apply_patch("a\nb\nc", "PUT 2.=2:\n+before\n+after"),
        "a\nbefore\nafter\nc"
    );
}

#[test]
fn deletes_and_inserts() {
    assert_eq!(apply_patch("a\nb\nc", "CUT 2.=2"), "a\nc");
    assert_eq!(apply_patch("a\nb\nc\nd", "CUT 2.=3"), "a\nd");
    assert_eq!(
        apply_patch("a\nb\nc", "PUT <2:\n+before\nPUT >2:\n+after"),
        "a\nbefore\nb\nafter\nc"
    );
    assert_eq!(apply_patch("a\nb", "PUT <1:\n+HEAD"), "HEAD\na\nb");
    assert_eq!(apply_patch("a\nb", "PUT >$:\n+TAIL"), "a\nb\nTAIL");
}

#[test]
fn lenient_separators() {
    for sep in ["-", ".", "=", "..", "…", " "] {
        assert_eq!(apply_patch("a\nb\nc\nd", &format!("CUT 2{sep}3")), "a\nd");
        assert_eq!(
            apply_patch("a\nb\nc\nd", &format!("PUT 2{sep}3:\n+middle")),
            "a\nmiddle\nd"
        );
    }
}

#[test]
fn empty_replace_is_delete() {
    let parsed = parse_patch("PUT 2-3:").unwrap();
    assert_eq!(
        apply_edits("a\nb\nc\nd", &parsed.edits, None).unwrap().text,
        "a\nd"
    );
    assert!(
        parsed
            .warnings
            .iter()
            .any(|w| w.contains("empty `PUT` body as deletion"))
    );
    assert!(parse_patch("PUT <1:").is_err());
}

#[test]
fn rejects_body_under_cut() {
    let err = parse_patch("CUT 2\n+replacement").unwrap_err().message();
    assert!(err.contains("takes no body rows"), "{err}");
}

#[test]
fn auto_pipes_bare_rows() {
    assert_eq!(apply_patch("a\nb\nc", "PUT 2-2:\nraw"), "a\nraw\nc");
    let parsed = parse_patch("PUT 2-2:\n3:replaced").unwrap();
    assert_eq!(
        apply_edits("a\nb\nc", &parsed.edits, None).unwrap().text,
        "a\nreplaced\nc"
    );
}

#[test]
fn phantom_sentinel() {
    let edits = parse_patch("CUT 3").unwrap().edits;
    assert_eq!(
        apply_edits("a\nb\n", &edits, None).unwrap().text,
        "a\nb\n"
    );
    let edits = parse_patch("CUT 2-3").unwrap().edits;
    assert_eq!(apply_edits("a\nb\n", &edits, None).unwrap().text, "a\n");
    let edits = parse_patch("PUT 2-3:\n+B").unwrap().edits;
    assert_eq!(apply_edits("a\nb\n", &edits, None).unwrap().text, "a\nB\n");
    let edits = parse_patch("CUT 2").unwrap().edits;
    assert_eq!(apply_edits("a\nb", &edits, None).unwrap().text, "a");
}

#[test]
fn range_limit() {
    let err = parse_patch("PUT 1-100001:\n+x").unwrap_err().message();
    assert!(err.contains("100001"), "{err}");
}

#[test]
fn streaming_empty_replace_not_flushed() {
    let result = parse_patch_streaming("PUT 5-5:\n").unwrap();
    assert!(result.edits.is_empty());
}

#[test]
fn streaming_flushes_what_is_complete() {
    assert_eq!(parse_patch_streaming("CUT 5").unwrap().edits.len(), 2);
    assert_eq!(parse_patch_streaming("PUT >5").unwrap().edits.len(), 1);
    assert_eq!(parse_patch_streaming("PUT 5.=6 @keep").unwrap().edits.len(), 1);
    assert_eq!(parse_patch_streaming("PUT 5:\n+x").unwrap().edits.len(), 2);
    assert!(parse_patch_streaming("PUT >5:").unwrap().edits.is_empty());
    assert!(parse_patch_streaming("PUT 5*:").unwrap().edits.is_empty());
}

#[test]
fn line_numbers_are_read_strictly() {
    assert_eq!(parse_lid(" 42 ", 7).unwrap(), anchor(42));
    for raw in ["", "0", "007", "-1", "1x", "9223372036854775808", "99999999999999999999"] {
        assert_eq!(
            parse_lid(raw, 7).unwrap_err().message(),
            format!("line 7: invalid line number {raw:?}")
        );
    }
    assert_eq!(
        parse_lid("a\"\n\u{7}", 1).unwrap_err().message(),
        "line 1: invalid line number \"a\\\"\\n\\u{7}\""
    );
    assert_eq!(
        parse_lid("9223372036854775807", 1).unwrap(),
        anchor(9223372036854775807)
    );
}

#[test]
fn every_parse_error() {
    assert_eq!(
        parse_error("CUT 3.=2"),
        "line 1: inverted range 3.=2"
    );
    assert_eq!(
        parse_error("\nPUT 1.=100001:\n+x"),
        "line 2: replace range spans 100001 lines; the maximum is 100000"
    );
    assert_eq!(parse_error("PUT   "), "empty PUT locator");
    assert_eq!(parse_error("PUT x:"), "invalid PUT locator \"x:\"");
    assert_eq!(parse_error("PUT <0:"), "invalid PUT locator \"<0:\"");
    assert_eq!(
        parse_error("PUT 2: tail"),
        "trailing junk after PUT locator: \"tail\""
    );
    assert_eq!(
        parse_error("PUT >$: tail"),
        "trailing junk after PUT locator: \"tail\""
    );
    assert_eq!(
        parse_error("PUT >2: tail"),
        "trailing junk after PUT locator: \"tail\""
    );
    assert_eq!(
        parse_error("PUT 2*: tail"),
        "trailing junk after PUT locator: \"tail\""
    );
    assert_eq!(
        parse_error("PUT 2.=3*:"),
        "block locators are single lines (`N*`), never ranges"
    );
    assert_eq!(parse_error("CUT x"), "invalid CUT locator \"x\"");
    assert_eq!(
        parse_error("CUT 2.=3*"),
        "block locators are single lines (`N*`), never ranges"
    );
    assert_eq!(
        parse_error("CUT 2 tail"),
        "invalid CUT locator \"2 tail\""
    );
    assert_eq!(
        parse_error("CUT 2.=3 tail"),
        "trailing junk after CUT locator: \"tail\""
    );
    assert_eq!(
        parse_error("CUT 2* tail"),
        "trailing junk after CUT locator: \"tail\""
    );
    assert_eq!(
        parse_error("REM\nMV a.txt"),
        "line 2: only one file-level op (`REM` or `MV`) per section"
    );
    assert_eq!(
        parse_error("CUT 2\nREM"),
        "line 2: `REM` deletes the whole file and cannot be combined with line ops"
    );
    assert_eq!(
        parse_error("REM\nCUT 2"),
        "`REM` deletes the whole file and cannot be combined with line ops"
    );
    assert_eq!(
        parse_error("PUT 2.=3"),
        "line 1: colonless span `PUT` needs a register (`PUT N.=M @name`) or a `:` body"
    );
    assert_eq!(
        parse_error("PUT 2*"),
        "line 1: colonless span `PUT` needs a register (`PUT N.=M @name`) or a `:` body"
    );
    assert_eq!(parse_error("PUT >2*:"), "line 1: `PUT` insert promises body rows");
    assert_eq!(parse_error("PUT >2:"), "line 1: `PUT` insert promises body rows");
    assert_eq!(parse_error("PUT >2 @r:"), "line 1: register `PUT` takes no `:` body");
    assert_eq!(parse_error("PUT >2 @r\n+x"), "line 2: register `PUT` takes no `:` body");
    assert_eq!(parse_error("PUT >2\n+x"), "line 2: this op takes no body rows");
    assert_eq!(parse_error("PUT >2\nx"), "line 2: this op takes no body rows");
    assert_eq!(parse_error("REM\n+x"), "line 2: file-level op takes no body rows");
    assert_eq!(
        parse_error("+x"),
        "line 1: payload line has no preceding hunk header. Got \"+x\"."
    );
    assert_eq!(
        parse_error("x"),
        "line 1: payload line has no preceding hunk header. Use `PUT N.=M:`, `CUT N.=M`, or `PUT <N:`/`PUT >N:` above the body. Got \"x\"."
    );
    assert_eq!(
        parse_error("PUT 2:\n-gone"),
        "line 2: body rows starting with `-` are not hashline; use `+` for final content"
    );
}

#[test]
fn edits_carry_what_was_written() {
    let parsed = parse_patch("PUT >3* @keep\nCUT 4* @other\nPUT 5*:\n+x\n+y").unwrap();
    assert_eq!(
        parsed.edits,
        vec![
            Edit::Block {
                anchor: anchor(3),
                payloads: vec![],
                mode: BlockMode::PasteAfter,
                register: Some("keep".to_string()),
                line_num: 1,
                index: 0,
            },
            Edit::Block {
                anchor: anchor(4),
                payloads: vec![],
                mode: BlockMode::Cut,
                register: Some("other".to_string()),
                line_num: 2,
                index: 1,
            },
            Edit::Block {
                anchor: anchor(5),
                payloads: vec!["x".to_string(), "y".to_string()],
                mode: BlockMode::Replace,
                register: None,
                line_num: 3,
                index: 2,
            },
        ]
    );
    let parsed = parse_patch("PUT 2.=3 @keep\nPUT <4").unwrap();
    assert_eq!(
        parsed.edits,
        vec![
            Edit::Paste {
                at: PasteTarget::Span {
                    range: ParsedRange { start: anchor(2), end: anchor(3) },
                },
                register: Some("keep".to_string()),
                line_num: 1,
                index: 0,
                block_start: None,
            },
            Edit::Paste {
                at: PasteTarget::Gap {
                    cursor: Cursor::BeforeAnchor { anchor: anchor(4) },
                },
                register: None,
                line_num: 2,
                index: 1,
                block_start: None,
            },
        ]
    );
}

#[test]
fn file_ops_are_read() {
    assert_eq!(parse_patch(" REM ").unwrap().file_op, Some(FileOp::Rem));
    assert_eq!(
        parse_patch("MV \"new name.txt\"").unwrap().file_op,
        Some(FileOp::Move { dest: "new name.txt".to_string() })
    );
    let both = parse_patch("CUT 1\nMV b.txt").unwrap();
    assert_eq!(both.edits.len(), 2);
    assert_eq!(both.file_op, Some(FileOp::Move { dest: "b.txt".to_string() }));
}

#[test]
fn warnings_of_the_parser() {
    assert_eq!(
        parse_patch("CUT 2:").unwrap().warnings,
        ["`CUT` colon is ignored"]
    );
    assert_eq!(
        parse_patch("PUT 2:\nraw\nrow").unwrap().warnings,
        ["Auto-prefixed bare body row"]
    );
    assert_eq!(
        parse_patch("PUT 2:\n+PUT 3:").unwrap().warnings,
        ["line 2: body row looks like an op header and will be inserted as text"]
    );
}

#[test]
fn minus_rows_are_bullets_or_dropped() {
    assert_eq!(
        apply_patch("a\nb", "PUT 2:\n- one\n- two"),
        "a\n- one\n- two"
    );
    assert_eq!(apply_patch("a\nb", "PUT 2:\n-b\n+B"), "a\nB");
    assert_eq!(
        apply_patch("a\nb", "PUT 2:\n+- one\n- two"),
        "a\n- one\n- two"
    );
}

#[test]
fn copied_line_numbers_are_stripped_when_uniform() {
    assert_eq!(
        apply_patch("a\nb", "PUT 2:\n7:x = 1\n8|y"),
        "a\nx = 1\ny"
    );
    assert_eq!(apply_patch("a\nb", "PUT 2:\n7:x\ny"), "a\n7:x\ny");
    // A mapping from numbers to literals is content.
    assert_eq!(apply_patch("a\nb", "PUT 2:\n1:2.5e3,\n2:\"s\""), "a\n1:2.5e3,\n2:\"s\"");
    assert_eq!(apply_patch("a\nb", "PUT 2:\n>>> 1:x"), "a\nx");
}

#[test]
fn blank_rows_inside_a_body_are_kept() {
    assert_eq!(apply_patch("a\nb", "PUT 2:\n+x\n\n+y\n\n"), "a\nx\n\ny");
}

#[test]
fn marked_rows_are_inserted_as_they_are() {
    assert_eq!(
        apply_patch("a\nb\nc", "PUT 2:\n+7:x\n+- y\n+\n++z"),
        "a\n7:x\n- y\n\n+z\nc"
    );
}

#[test]
fn sections_of_a_patch() {
    let patch = parse_input(
        "\n*** Begin Patch\n[a.rs#1a2B]\nCUT 1\n[b.rs#]\n[c d.rs]\nPUT 1:\n+x\n*** End Patch\n",
    )
    .unwrap();
    let found: Vec<(&str, Option<&str>, &str)> = patch
        .sections
        .iter()
        .map(|s| (s.path.as_str(), s.file_hash.as_deref(), s.body.as_str()))
        .collect();
    assert_eq!(
        found,
        [
            ("a.rs", Some("1A2B"), "CUT 1"),
            ("c d.rs", None, "PUT 1:\n+x"),
        ]
    );
    let aborted = parse_input("[a.rs#1A2B]\nCUT 1\n*** Abort\n[b.rs#1A2B]\nCUT 1").unwrap();
    assert_eq!(aborted.sections.len(), 1);
    let bare = parse_input("CUT 1\r\nCUT 2\r\n").unwrap();
    assert_eq!(bare.sections.len(), 1);
    assert_eq!(bare.sections[0].path, "");
    assert_eq!(bare.sections[0].body, "CUT 1\nCUT 2");
    assert!(parse_input("").unwrap().sections.is_empty());
}

#[test]
fn anchors_are_collected_once() {
    let edits = parse_patch("PUT 4.=5:\n+x\nPUT >4:\n+y\nPUT >$:\n+z").unwrap().edits;
    assert_eq!(collect_anchor_lines(&edits), [4, 5]);
}

#[test]
fn anchors_of_edits() {
    let edits = parse_patch("PUT 4.=5 @r\nPUT >$:\n+z\nCUT 7*").unwrap().edits;
    assert_eq!(edits[0].anchors(), [anchor(4), anchor(5)]);
    assert!(edits[0].is_anchor_scoped());
    assert!(edits[1].anchors().is_empty());
    assert!(!edits[1].is_anchor_scoped());
    assert_eq!(edits[2].anchors(), [anchor(7)]);
    assert_eq!(edits[2].line_num(), 4);
}

#[test]
fn lines_that_do_not_exist_are_refused() {
    let edits = parse_patch("CUT 4").unwrap().edits;
    let mut clip = Clipboard::default();
    assert!(apply_edits("a\nb", &edits, Some(&mut clip)).is_err());
    let edits = parse_patch("PUT >9:\n+x").unwrap().edits;
    assert_eq!(
        apply_edits("a\nb", &edits, None).unwrap_err().message(),
        "Line 9 does not exist (file has 2 lines)"
    );
    let blocks = parse_patch("PUT 1*:\n+x").unwrap().edits;
    assert_eq!(
        apply_edits("a\nb", &blocks, None).unwrap_err().message(),
        "unresolved block edit reached the applier"
    );
}

#[test]
fn edits_away_from_a_line_keep_it() {
    let text = "a\nb\nc\nd\ne\n";
    let edits = parse_patch("PUT 3:\n+C1\n+C2\nPUT >4:\n+D2").unwrap().edits;
    let done = apply_edits(text, &edits, None).unwrap();
    assert_eq!(done.text, "a\nb\nC1\nC2\nd\nD2\ne\n");
    assert_eq!(done.first_changed_line, Some(3));
}
