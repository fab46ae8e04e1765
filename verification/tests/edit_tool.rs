use jcode_hashline::diff::{
    build_file_touch_preview, can_diff, changed_span, generate_changed_span_diff, generate_diff,
    render_diff, TextChange, FILE_TOUCH_PREVIEW_MAX_BYTES, HASHLINE_DIFF_MAX_LINES,
};
use jcode_hashline::edit::{
    check_patch, edit_request, extract_context, find_line_number, plan_string_edit, render_results,
    render_section, run_string_edit, stated_intent, touched_path, try_flexible_match, EditRequest,
    EditTool,
};
use jcode_hashline::parse::parse_input;
use jcode_hashline::patcher::SectionResult;
use jcode_hashline::recovery::LineChange;
use jcode_hashline::search::{
    count_matches, find, replace_all_matches, replace_first, split_text_lines,
};
use jcode_hashline::types::BlockResolution;

#[test]
fn test_generate_diff_single_line_change() {
    let old = "hello world";
    let new = "hello rust";
    let diff = generate_diff(old, new, 10);

    // Compact format: "10- content" / "10+ content"
    assert!(diff.contains("10- hello world"), "Should show deleted line");
    assert!(diff.contains("10+ hello rust"), "Should show added line");
}

#[test]
fn test_generate_diff_multi_line() {
    let old = "line one\nline two\nline three";
    let new = "line one\nmodified two\nline three";
    let diff = generate_diff(old, new, 5);

    // Line 6 should be the changed line (5 + 1 for "line two")
    assert!(diff.contains("6- line two"), "Should show deleted line");
    assert!(diff.contains("6+ modified two"), "Should show added line");
    // Equal lines should not appear
    assert!(
        !diff.contains("line one"),
        "Should not show unchanged lines"
    );
    assert!(
        !diff.contains("line three"),
        "Should not show unchanged lines"
    );
}

#[test]
fn test_generate_diff_addition_only() {
    let old = "first\nthird";
    let new = "first\nsecond\nthird";
    let diff = generate_diff(old, new, 1);

    assert!(diff.contains("+ second"), "Should show added line");
}

#[test]
fn test_generate_diff_deletion_only() {
    let old = "first\nsecond\nthird";
    let new = "first\nthird";
    let diff = generate_diff(old, new, 1);

    assert!(diff.contains("- second"), "Should show deleted line");
}

#[test]
fn test_generate_diff_no_changes() {
    let old = "same content";
    let new = "same content";
    let diff = generate_diff(old, new, 1);

    assert!(diff.is_empty(), "No changes should produce empty diff");
}

#[test]
fn test_changed_span_skips_unchanged_head() {
    let before = (1..=20)
        .map(|i| format!("line {i}"))
        .collect::<Vec<_>>()
        .join("\n");
    let after = before.replace("line 10", "changed 10");
    let (old, new, start) = changed_span(&before, &after);
    assert_eq!(start, 10);
    assert_eq!(old, "line 10");
    assert_eq!(new, "changed 10");
    let diff = generate_changed_span_diff(&before, &after);
    assert!(diff.contains("10- line 10"), "{diff}");
    assert!(diff.contains("10+ changed 10"), "{diff}");
    assert!(!diff.contains("line 1\n"), "{diff}");
    assert!(!diff.contains("line 20"), "{diff}");
    assert_eq!(diff, "10- line 10\n10+ changed 10");
}

#[test]
fn test_changed_span_diff_caps() {
    let before = (1..=80)
        .map(|i| format!("old {i}"))
        .collect::<Vec<_>>()
        .join("\n");
    let after = (1..=80)
        .map(|i| format!("new {i}"))
        .collect::<Vec<_>>()
        .join("\n");
    let diff = generate_changed_span_diff(&before, &after);
    let lines = diff.lines().count();
    assert!(lines <= HASHLINE_DIFF_MAX_LINES + 1, "{lines} {diff}");
    assert!(diff.contains("..."), "{diff}");
}

#[test]
fn test_generate_diff_line_number_format() {
    let old = "old";
    let new = "new";
    let diff = generate_diff(old, new, 42);

    // Compact format: no padding
    assert!(
        diff.contains("42- old"),
        "Should have line number directly before minus"
    );
    assert!(
        diff.contains("42+ new"),
        "Should have line number directly before plus"
    );
}

#[test]
fn test_find_line_number() {
    let content = "line 1\nline 2\nline 3\nline 4";

    assert_eq!(find_line_number(content, "line 1"), 1);
    assert_eq!(find_line_number(content, "line 2"), 2);
    assert_eq!(find_line_number(content, "line 3"), 3);
    assert_eq!(find_line_number(content, "line 4"), 4);
    assert_eq!(find_line_number(content, "not found"), 1);
}

#[test]
fn test_extract_context() {
    let content =
        "line 1\nline 2\nline 3\nline 4\nline 5\nline 6\nline 7\nline 8\nline 9\nline 10";

    // Edit at line 5, with 2 lines padding
    let (start, end, ctx) = extract_context(content, 5, 5, 2);

    assert_eq!(start, 3, "Should start at line 3 (5 - 2)");
    assert_eq!(end, 7, "Should end at line 7 (5 + 2)");
    assert!(ctx.contains("line 3"), "Should include line 3");
    assert!(ctx.contains("line 5"), "Should include edited line 5");
    assert!(ctx.contains("line 7"), "Should include line 7");
    assert!(!ctx.contains("line 2"), "Should not include line 2");
    assert!(!ctx.contains("line 8"), "Should not include line 8");
}

#[test]
fn test_extract_context_at_start() {
    let content = "line 1\nline 2\nline 3\nline 4\nline 5";

    // Edit at line 1, with 2 lines padding - shouldn't go negative
    let (start, _end, ctx) = extract_context(content, 1, 1, 2);

    assert_eq!(start, 1, "Should start at line 1 (can't go before)");
    assert!(ctx.contains("line 1"), "Should include line 1");
    assert!(ctx.contains("line 3"), "Should include line 3");
}

#[test]
fn test_extract_context_at_end() {
    let content = "line 1\nline 2\nline 3\nline 4\nline 5";

    // Edit at line 5, with 2 lines padding - shouldn't go past end
    let (_start, end, ctx) = extract_context(content, 5, 5, 2);

    assert_eq!(end, 5, "Should end at line 5 (can't go past)");
    assert!(ctx.contains("line 5"), "Should include line 5");
    assert!(ctx.contains("line 3"), "Should include line 3");
}

#[test]
fn test_extract_context_range_past_end() {
    let content = "line 1\nline 2\nline 3\nline 4\nline 5";

    // Edit range extends past the end of the file.
    let (start, end, ctx) = extract_context(content, 4, 10, 1);

    assert_eq!(start, 3, "Should start at line 3 (4 - 1)");
    assert_eq!(end, 5, "Should clamp to last line");
    assert!(ctx.contains("line 3"), "Should include line 3");
    assert!(ctx.contains("line 5"), "Should include line 5");
}

#[test]
fn context_lines_are_numbered() {
    let (_, _, ctx) = extract_context("a\nb\nc", 2, 2, 1);
    assert_eq!(ctx, "   1│ a\n   2│ b\n   3│ c");
}

#[test]
fn changed_span_skips_the_common_head_and_tail() {
    let (old, new, start) = changed_span("a\nb\n", "a\nx\ny\nb\n");
    assert_eq!((old.as_str(), new.as_str(), start), ("", "x\ny", 2));
}

#[test]
fn diffs_are_rendered_line_by_line() {
    let change = |kind: LineChange, value: &str| TextChange { kind, value: value.to_string() };
    let changes = [
        change(LineChange::Equal, "same\n"),
        change(LineChange::Delete, "  gone \n"),
        change(LineChange::Delete, "\n"),
        change(LineChange::Insert, "\tnew\n"),
        change(LineChange::Insert, "last"),
    ];
    assert_eq!(
        render_diff(&changes, 7),
        "8- gone\n8+ new\n9+ last"
    );
    assert_eq!(render_diff(&changes[..1], 7), "");
    assert_eq!(generate_diff("a\nb\nc\n", "a\nc\nd\n", 1), "2- b\n3+ d");
    assert!(can_diff("a\nb\r\n", ""));
    assert_eq!(generate_diff("a\rb\r\nc", "a\rx\r\nc", 1), "2- b\n2+ x");
}

#[test]
fn previews_are_short() {
    assert_eq!(build_file_touch_preview("  \n "), None);
    assert_eq!(build_file_touch_preview("1- a\n1+ b\n"), Some("1- a\n1+ b".to_string()));
    let many = (1..=9).map(|i| format!("{i}+ x")).collect::<Vec<_>>().join("\n");
    assert_eq!(
        build_file_touch_preview(&many).unwrap(),
        "1+ x\n2+ x\n3+ x\n4+ x\n5+ x\n6+ x\n…"
    );
    let long = "\u{5b57}".repeat(200);
    let preview = build_file_touch_preview(&long).unwrap();
    assert_eq!(preview, format!("{}\n…", "\u{5b57}".repeat(80)));
    assert!(preview.len() <= FILE_TOUCH_PREVIEW_MAX_BYTES + "\n…".len());
}

#[test]
fn lines_split_as_the_standard_library_does() {
    for text in ["", "a", "a\n", "a\r\nb\r", "\n\n", "a\n\r\nb", "\r", "x\r\n"] {
        let expected: Vec<&str> = text.lines().collect();
        assert_eq!(split_text_lines(text), expected);
    }
}

#[test]
fn searching_agrees_with_the_standard_library() {
    let cases = [
        ("abcabc", "bc", "-"),
        ("aaaa", "aa", "b"),
        ("abc", "", "|"),
        ("", "", "x"),
        ("", "a", "x"),
        ("\u{5b57}a\u{5b57}a", "\u{5b57}", "ab"),
        ("abab", "ab", "abab"),
    ];
    for (text, pattern, by) in cases {
        let t: Vec<char> = text.chars().collect();
        let p: Vec<char> = pattern.chars().collect();
        let b: Vec<char> = by.chars().collect();
        assert_eq!(count_matches(&t, &p), text.matches(pattern).count() as u128);
        assert_eq!(replace_first(&t, &p, &b), text.replacen(pattern, by, 1));
        assert_eq!(replace_all_matches(&t, &p, &b), text.replace(pattern, by));
        assert_eq!(
            find(&t, &p),
            text.find(pattern).map(|at| text[..at].chars().count())
        );
    }
}

#[test]
fn requests_are_told_apart() {
    let text = |s: &str| Some(s.to_string());
    assert_eq!(
        edit_request(text(" [a#1A2B]\nREM \n"), None, None, None).unwrap(),
        EditRequest::Hashline { patch: "[a#1A2B]\nREM".to_string() }
    );
    assert_eq!(
        edit_request(text("  "), text("f"), text("a"), text("b")).unwrap(),
        EditRequest::Replace {
            file_path: "f".to_string(),
            old_string: "a".to_string(),
            new_string: "b".to_string(),
        }
    );
    assert_eq!(
        edit_request(None, text("f"), text("a"), None).unwrap_err().message(),
        "edit needs hashline `input` or file_path + old_string + new_string"
    );
    assert_eq!(
        edit_request(None, text("f"), text("a"), text("a")).unwrap_err().message(),
        "old_string and new_string must be different"
    );
    assert_eq!(stated_intent(text(" \t")), None);
    assert_eq!(stated_intent(text(" why ")), text(" why "));
    assert_eq!(stated_intent(None), None);
    let _ = EditTool::new();
}

#[test]
fn near_misses_are_explained() {
    assert_eq!(
        try_flexible_match("let x = 1;\n", " let x = 1; ", "f.rs").message(),
        "old_string not found exactly, but found after trimming whitespace.\nTry using the exact string from the file, including leading/trailing whitespace."
    );
    assert_eq!(
        try_flexible_match("a\n  b\n  c\n", "b\nc", "f.rs").message(),
        "old_string not found exactly, but found with different indentation around line 2.\nMake sure to preserve the exact whitespace from the file."
    );
    assert_eq!(
        try_flexible_match("a\nb\n", "z", "f.rs").message(),
        "old_string not found in f.rs.\nUse the read tool to see the current file contents."
    );
}

#[test]
fn replacements_are_planned() {
    let edit = plan_string_edit("one\ntwo\none\n", "one", "1\n1", true, "f").unwrap();
    assert_eq!(edit.content, "1\n1\ntwo\n1\n1\n");
    assert_eq!((edit.occurrences, edit.start_line, edit.end_line), (2, 1, 2));
    assert_eq!(
        plan_string_edit("one\ntwo\none\n", "one", "1", false, "f").err().unwrap().message(),
        "old_string found 2 times in the file. Either:\n1. Provide more context to make it unique, or\n2. Set replace_all: true to replace all occurrences"
    );
    let edit = plan_string_edit("a b c", "b", "", false, "f").unwrap();
    assert_eq!(edit.content, "a  c");
    assert_eq!((edit.start_line, edit.end_line), (1, 1));
    assert!(plan_string_edit("a", "z", "y", false, "f").is_err());
}

#[test]
fn replacements_are_reported() {
    let (edit, report) = run_string_edit("a\nhello world\nb\n", "hello world", "hello rust", false, "note.txt").unwrap();
    assert_eq!(edit.content, "a\nhello rust\nb\n");
    assert_eq!(
        report.body,
        "Edited note.txt: replaced 1 occurrence(s)\n2- hello world\n2+ hello rust\n\nContext after edit (lines 1-3):\n   1│ a\n   2│ hello rust\n   3│ b"
    );
    assert_eq!(report.summary, "edited lines 2-2 (1 occurrence)");
    assert_eq!(report.detail.as_deref(), Some("2- hello world\n2+ hello rust"));
    let (_, report) = run_string_edit("x\nx\n", "x", "y", true, "f").unwrap();
    assert_eq!(report.summary, "edited lines 1-1 (2 occurrences)");
}

fn section_result(op: &'static str, before: &str, after: &str) -> SectionResult {
    SectionResult {
        path: "a.rs".to_string(),
        op,
        before: before.to_string(),
        after: after.to_string(),
        file_hash: "1A2B".to_string(),
        header: "[a.rs#1A2B]".to_string(),
        first_changed_line: None,
        warnings: vec![],
        block_resolutions: vec![],
        move_dest: None,
    }
}

#[test]
fn results_are_described() {
    let deleted = section_result("delete", "x\n", "x\n");
    let mut noop = section_result("noop", "x\n", "x\n");
    noop.warnings.push("odd".to_string());
    let mut moved = section_result("update", "a\nb\n", "a\nB\n");
    moved.move_dest = Some("b.rs".to_string());
    moved.first_changed_line = Some(2);
    moved.block_resolutions.push(BlockResolution { line: 2, start: 2, end: 4 });
    assert_eq!(
        render_results(&[deleted.clone(), noop, moved.clone()]),
        "[a.rs#1A2B]\ndeleted file\n\n[a.rs#1A2B]\nno changes\nWarnings:\nodd\n\n[a.rs#1A2B]\nmoved to b.rs\nPUT 2*: → resolved lines 2-4\nfirst changed line 2\n2- b\n2+ B\n"
    );
    assert_eq!(
        render_section(&section_result("update", "", ""), ""),
        "[a.rs#1A2B]\n"
    );
    assert_eq!(
        touched_path(&moved),
        ("b.rs".to_string(), "update b.rs".to_string())
    );
    assert_eq!(
        touched_path(&deleted),
        ("a.rs".to_string(), "delete a.rs".to_string())
    );
}

#[test]
fn a_patch_needs_a_section() {
    assert!(check_patch(&parse_input("[a#1A2B]\nREM").unwrap()).is_ok());
    assert_eq!(
        check_patch(&parse_input("").unwrap()).unwrap_err().message(),
        "hashline input needs at least one [PATH#TAG] section"
    );
}
