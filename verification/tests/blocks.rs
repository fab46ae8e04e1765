use jcode_hashline::block::{has_block_edit, resolve_block, resolve_block_edits};
use jcode_hashline::parse::parse_patch;
use jcode_hashline::types::{BlockResolution, BlockSpan, Edit};

#[test]
fn rust_fn_block() {
    let text = "fn greet(name: &str) {\n    println!(\"{name}\");\n}\ncall();\n";
    assert_eq!(
        resolve_block("greet.rs", text, 1),
        Some(BlockSpan { start: 1, end: 3 })
    );
}

#[test]
fn python_indent_block() {
    let text = "def greet(name):\n    msg = name\n    print(msg)\ngreet('x')\n";
    assert_eq!(
        resolve_block("greet.py", text, 1),
        Some(BlockSpan { start: 1, end: 3 })
    );
}

#[test]
fn markdown_heading() {
    let text = "## A\nbody\n### nested\nmore\n## B\n";
    assert_eq!(
        resolve_block("doc.md", text, 1),
        Some(BlockSpan { start: 1, end: 4 })
    );
}

#[test]
fn lines_that_open_no_block() {
    assert_eq!(resolve_block("a.rs", "call();\nother();\n", 1), None);
    assert_eq!(resolve_block("a.rs", "fn f() {\n}\n", 0), None);
    assert_eq!(resolve_block("a.rs", "fn f() {\n}\n", 9), None);
    assert_eq!(resolve_block("a.py", "x = 1\ny = 2\n", 1), None);
    assert_eq!(resolve_block("a.md", "plain\ntext\n", 1), None);
}

#[test]
fn the_outermost_bracket_of_a_line_decides() {
    let span = |text: &str| resolve_block("a.js", text, 1);
    assert_eq!(span("foo({\n  a\n},\n  b\n)"), Some(BlockSpan { start: 1, end: 5 }));
    assert_eq!(span("foo([{\n}\n]\n)\nbar()\n"), Some(BlockSpan { start: 1, end: 4 }));
    // What was closed again on the line does not count, nor what an earlier line opened.
    assert_eq!(span("foo(a) {\n  b\n}\n"), Some(BlockSpan { start: 1, end: 3 }));
    assert_eq!(span("} else {\n  b\n}\n"), Some(BlockSpan { start: 1, end: 3 }));
    // Nor does what nothing closes: the next bracket decides, and the indentation in the end.
    assert_eq!(span("foo({\n  a\n},\n"), Some(BlockSpan { start: 1, end: 3 }));
    assert_eq!(span("foo({\na\n},\n"), Some(BlockSpan { start: 1, end: 3 }));
    assert_eq!(span("f( {\n}"), Some(BlockSpan { start: 1, end: 2 }));
    assert_eq!(
        span("if (/\\(/.test(s)) {\n  a\n}\n"),
        Some(BlockSpan { start: 1, end: 3 })
    );
    assert_eq!(span("foo({\n  a\nb\n"), Some(BlockSpan { start: 1, end: 2 }));
    assert_eq!(span("foo({\na\n"), None);
}

#[test]
fn brackets_in_strings_do_not_count() {
    let text = "fn f() {\n    let s = \"}\";\n    g();\n}\nfn h() {}\n";
    assert_eq!(
        resolve_block("a.rs", text, 1),
        Some(BlockSpan { start: 1, end: 4 })
    );
}

#[test]
fn block_edits_become_line_edits() {
    let text = "fn f() {\n    a();\n}\nrest();\n";
    let edits = parse_patch("PUT 1*:\n+fn g() {}").unwrap().edits;
    assert!(has_block_edit(&edits));
    let mut resolutions = Vec::new();
    let mut warnings = Vec::new();
    let out =
        resolve_block_edits(&edits, text, "a.rs", true, &mut resolutions, &mut warnings).unwrap();
    assert!(!has_block_edit(&out));
    assert_eq!(resolutions, [BlockResolution { line: 1, start: 1, end: 3 }]);
    assert!(warnings.is_empty());
    assert_eq!(out.len(), 4);
    assert!(matches!(&out[0], Edit::Insert { text, replacement: true, .. } if text == "fn g() {}"));
}

#[test]
fn cut_and_paste_of_blocks() {
    let text = "fn f() {\n    a();\n}\nfn g() {\n    b();\n}\n";
    let edits = parse_patch("CUT 1*\nPUT >4*").unwrap().edits;
    let mut resolutions = Vec::new();
    let mut warnings = Vec::new();
    let out =
        resolve_block_edits(&edits, text, "a.rs", true, &mut resolutions, &mut warnings).unwrap();
    let done = jcode_hashline::apply::apply_edits(text, &out, None).unwrap();
    assert_eq!(done.text, "fn g() {\n    b();\n}\nfn f() {\n    a();\n}\n");
}

#[test]
fn a_block_that_cannot_be_resolved_is_refused() {
    let edits = parse_patch("\nPUT 2*:\n+x").unwrap().edits;
    let mut resolutions = Vec::new();
    let mut warnings = Vec::new();
    let err = resolve_block_edits(
        &edits,
        "a\nb\n",
        "a.rs",
        true,
        &mut resolutions,
        &mut warnings,
    )
    .unwrap_err()
    .message();
    assert_eq!(err, "line 2: could not resolve block opening at 2");
}

#[test]
fn unresolved_blocks_may_be_dropped() {
    let edits = parse_patch("PUT 2*:\n+x\nPUT >1:\n+y").unwrap().edits;
    let mut resolutions = Vec::new();
    let mut warnings = Vec::new();
    let out = resolve_block_edits(
        &edits,
        "a\nb\n",
        "a.rs",
        false,
        &mut resolutions,
        &mut warnings,
    )
    .unwrap();
    assert_eq!(out.len(), 1);
    assert!(!has_block_edit(&out));
    assert!(resolutions.is_empty());
}

#[test]
fn rows_after_a_block() {
    let text = "fn f() {\n    a();\n}\nrest();\n";
    let edits = parse_patch("PUT >1*:\n+fn g() {}").unwrap().edits;
    let mut resolutions = Vec::new();
    let mut warnings = Vec::new();
    let out =
        resolve_block_edits(&edits, text, "a.rs", true, &mut resolutions, &mut warnings).unwrap();
    let done = jcode_hashline::apply::apply_edits(text, &out, None).unwrap();
    assert_eq!(done.text, "fn f() {\n    a();\n}\nfn g() {}\nrest();\n");
    let lowered = parse_patch("PUT >4*:\n+end();").unwrap().edits;
    let out =
        resolve_block_edits(&lowered, text, "a.rs", true, &mut resolutions, &mut warnings).unwrap();
    let done = jcode_hashline::apply::apply_edits(text, &out, None).unwrap();
    assert_eq!(done.text, "fn f() {\n    a();\n}\nrest();\nend();\n");
    assert_eq!(
        warnings,
        ["PUT >4*: could not resolve block; lowered to PUT >4"]
    );
}
