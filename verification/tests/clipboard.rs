use jcode_hashline::apply::apply_edits;
use jcode_hashline::clipboard::{
    commit_clipboard, fork_clipboard, has_clipboard_edit, resolve_clipboard_edits,
    start_clipboard_batch, validate_clipboard_sequence,
};
use jcode_hashline::parse::parse_patch;
use jcode_hashline::types::{Clipboard, Edit};

fn edits_of(diff: &str) -> Vec<Edit> {
    parse_patch(diff).unwrap().edits
}

fn apply_with(text: &str, diff: &str, clip: &mut Clipboard) -> String {
    apply_edits(text, &edits_of(diff), Some(clip)).unwrap().text
}

#[test]
fn a_paste_gives_back_what_was_cut() {
    let mut clip = Clipboard::default();
    assert_eq!(
        apply_with("a\nb\nc\nd\n", "CUT 1.=2\nPUT >4", &mut clip),
        "c\nd\na\nb\n"
    );
    assert_eq!(
        apply_with("a\nb\nc\nd\n", "CUT 2 @x\nPUT 4.=4 @x", &mut clip),
        "a\nc\nb\n"
    );
    assert_eq!(clip.named.get("x").unwrap(), &["b"]);
}

#[test]
fn registers_last_between_files() {
    let mut clip = Clipboard::default();
    apply_with("a\nb\n", "CUT 2 @keep", &mut clip);
    assert_eq!(apply_with("x\n", "PUT >1 @keep", &mut clip), "x\nb\n");
}

#[test]
fn pastes_of_nothing() {
    let mut clip = Clipboard::default();
    let done = apply_edits("a\n", &edits_of("PUT >1 @none"), Some(&mut clip)).unwrap();
    assert_eq!(done.text, "a\n");
    assert_eq!(
        done.warnings,
        ["line 1: named register @none is empty; pasting nothing"]
    );
    assert_eq!(
        apply_edits("a\n", &edits_of("PUT 1.=1 @none"), Some(&mut clip)).unwrap_err().message(),
        "line 1: named register @none is empty; cannot paste over a span"
    );
    assert_eq!(
        apply_edits("a\n", &edits_of("PUT >1"), Some(&mut clip)).unwrap_err().message(),
        "line 1: unlabeled paste with empty anonymous register"
    );
}

#[test]
fn an_ambiguous_paste_is_refused() {
    let mut clip = Clipboard::default();
    let err = apply_edits("a\nb\nc\n", &edits_of("CUT 1\nCUT 2\nPUT >3"), Some(&mut clip))
        .unwrap_err()
        .message();
    assert_eq!(
        err,
        "line 3: ambiguous unlabeled paste; 2 pending anonymous CUTs"
    );
}

#[test]
fn cuts_and_pastes_out_of_range_are_refused() {
    let mut clip = Clipboard::default();
    let err = apply_edits("a\nb", &edits_of("CUT 4.=5"), Some(&mut clip)).unwrap_err().message();
    assert!(err.contains("is out of range (file has 2 lines)."), "{err}");
    let err = apply_edits("a\nb", &edits_of("CUT 1 @x\nPUT 4.=5 @x"), Some(&mut clip))
        .unwrap_err()
        .message();
    assert_eq!(
        err,
        "line 2: span paste is out of range (file has 2 lines)."
    );
}

#[test]
fn resolving_leaves_plain_edits_only() {
    let edits = edits_of("CUT 1 @x\nPUT >2 @x");
    assert!(has_clipboard_edit(&edits));
    let lines = vec!["a".to_string(), "b".to_string()];
    let mut clip = Clipboard::default();
    let mut warnings = Vec::new();
    let plain = resolve_clipboard_edits(&edits, &lines, &mut clip, false, &mut warnings).unwrap();
    assert!(!has_clipboard_edit(&plain));
    assert_eq!(plain.len(), 2);
    assert!(matches!(&plain[0], Edit::Delete { .. }));
    assert!(matches!(&plain[1], Edit::Insert { text, .. } if text == "a"));
}

#[test]
fn a_batch_starts_with_named_registers_only() {
    let mut clip = Clipboard::default();
    apply_with("a\nb\n", "CUT 1\nCUT 2 @keep", &mut clip);
    assert!(clip.lines.is_some());
    let batch = start_clipboard_batch(Some(&clip));
    assert!(batch.lines.is_none());
    assert_eq!(batch.named.get("keep").unwrap(), &["b"]);
    assert!(start_clipboard_batch(None).named.is_empty());
    let fork = fork_clipboard(Some(&clip));
    assert_eq!(fork.lines, clip.lines);
    let mut target = Clipboard::default();
    commit_clipboard(&batch, &mut target);
    assert_eq!(target.named.get("keep").unwrap(), &["b"]);
    assert!(target.lines.is_none());
}

#[test]
fn a_validated_sequence_runs() {
    let lines: Vec<String> = (1..=9).map(|i| format!("line {i}")).collect();
    for (diff, runs) in [
        ("CUT 1\nPUT >9", true),
        ("CUT 1\nPUT >9\nPUT >8", true),
        ("CUT 1\nCUT 2\nPUT >9", false),
        ("PUT >9", false),
        ("PUT >9 @x", true),
        ("PUT 1.=2 @x", false),
        ("CUT 3 @x\nPUT 1.=2 @x", true),
        ("CUT 3 @y\nPUT 1.=2 @x", false),
    ] {
        let edits = edits_of(diff);
        let mut clip = Clipboard::default();
        let checked = validate_clipboard_sequence(&edits, &clip).map_err(|e| e.message());
        let ran = resolve_clipboard_edits(&edits, &lines, &mut clip, false, &mut Vec::new())
            .map_err(|e| e.message());
        assert_eq!(checked.is_ok(), runs, "{diff}");
        assert_eq!(ran.err(), checked.err(), "{diff}");
    }
}

#[test]
fn sequences_are_validated_without_a_text() {
    let clip = Clipboard::default();
    assert!(validate_clipboard_sequence(&edits_of("CUT 1\nPUT >9"), &clip).is_ok());
    assert!(validate_clipboard_sequence(&edits_of("PUT >9"), &clip).is_err());
    assert!(validate_clipboard_sequence(&edits_of("PUT 1.=2 @x"), &clip).is_err());
    assert!(validate_clipboard_sequence(&edits_of("CUT 3 @x\nPUT 1.=2 @x"), &clip).is_ok());
}
