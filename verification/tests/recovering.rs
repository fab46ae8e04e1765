use jcode_hashline::parse::parse_patch;
use jcode_hashline::recovery::{build_line_map, carry_over, recover_by, try_recover, LineChange};
use jcode_hashline::snapshots::SnapshotStore;
use jcode_hashline::types::{Anchor, Clipboard, Edit, ParsedRange};

fn store_with(key: &str, text: &str) -> (SnapshotStore, String) {
    let mut store = SnapshotStore::new();
    let tag = store.record(key, text, None);
    (store, tag)
}

#[test]
fn recovers_uniform_offset_drift() {
    let prev = "alpha\nbeta\ngamma\n";
    let (store, tag) = store_with("/recovers.rs", prev);
    // One line inserted at the head outside this session: every old line
    // remaps with the same +1 offset.
    let current = format!("header\n{prev}");
    let edits = parse_patch("PUT 2.=2:\n+BETA").unwrap().edits;
    let mut clip = Clipboard::default();
    let recovered = try_recover(&store, "/recovers.rs", &current, &tag, &edits, &mut clip)
        .expect("uniform drift should recover");
    assert_eq!(recovered.apply.text, "header\nalpha\nBETA\ngamma\n");
}

#[test]
fn rejects_interior_line_drift_inside_a_cut_range() {
    let prev = "a\nb\nc\nd\ne\n";
    let (store, tag) = store_with("/interior.rs", prev);
    // Head insert (+1 for every endpoint) but interior line `c` was
    // replaced, so it has no mapping. Endpoint-only anchors would see a
    // uniform offset and wrongly recover; every covered line must anchor.
    let current = "x\na\nb\nQ\nd\ne\n";
    let edits = parse_patch("CUT 2.=4").unwrap().edits;
    let mut clip = Clipboard::default();
    assert!(
        try_recover(&store, "/interior.rs", &current, &tag, &edits, &mut clip).is_none(),
        "interior drift inside CUT must not recover"
    );
}

#[test]
fn an_unknown_tag_is_not_recovered() {
    let (store, _) = store_with("/a.rs", "a\nb\n");
    let edits = parse_patch("PUT 1:\n+x").unwrap().edits;
    let mut clip = Clipboard::default();
    assert!(try_recover(&store, "/a.rs", "x\na\nb\n", "0000", &edits, &mut clip).is_none());
    assert!(try_recover(&store, "/b.rs", "x\na\nb\n", "0000", &edits, &mut clip).is_none());
}

#[test]
fn a_cut_that_runs_backwards_is_not_reached() {
    let (store, tag) = store_with("/a.rs", "a\nb\nc\n");
    let range = ParsedRange { start: Anchor { line: 3 }, end: Anchor { line: 1 } };
    let edits = [Edit::Cut { range, register: None, line_num: 1, index: 0 }];
    let mut clip = Clipboard::default();
    assert!(try_recover(&store, "/a.rs", "x\na\nb\nc\n", "0000", &edits, &mut clip).is_none());
    assert!(try_recover(&store, "/a.rs", "a\nb\nc\n", &tag, &edits, &mut clip).is_none());
    assert!(try_recover(&store, "/a.rs", "a\nb\nx\nc\n", &tag, &edits, &mut clip).is_none());
    assert!(clip.lines.is_none());
}

#[test]
fn edits_in_regions_with_different_drift_are_not_recovered() {
    let (store, tag) = store_with("/a.rs", "a\nb\nc\nd\n");
    let edits = parse_patch("PUT 1:\n+A\nPUT 4:\n+D").unwrap().edits;
    let mut clip = Clipboard::default();
    assert!(
        try_recover(&store, "/a.rs", "a\nb\nnew\nc\nd\n", &tag, &edits, &mut clip).is_none()
    );
}

#[test]
fn line_maps_join_equal_lines() {
    let changes = [
        LineChange::Insert,
        LineChange::Equal,
        LineChange::Delete,
        LineChange::Equal,
    ];
    assert_eq!(build_line_map(&changes), [Some(2), None, Some(3)]);
}

#[test]
fn edits_are_carried_over() {
    let old = vec!["a".to_string(), "b".to_string()];
    let changes = [LineChange::Insert, LineChange::Equal, LineChange::Equal];
    let edits = parse_patch("PUT 2:\n+B").unwrap().edits;
    let carried = carry_over(&old, &changes, &edits).unwrap();
    assert!(matches!(&carried[1], Edit::Delete { anchor, .. } if anchor.line == 3));
    let gone = [LineChange::Equal, LineChange::Delete];
    assert!(carry_over(&old, &gone, &edits).is_none());
}

#[test]
fn recovery_by_given_changes() {
    let (store, tag) = store_with("/a.rs", "a\nb");
    let edits = parse_patch("PUT 2:\n+B").unwrap().edits;
    let changes = [LineChange::Insert, LineChange::Equal, LineChange::Equal];
    let mut clip = Clipboard::default();
    let done = recover_by(&changes, &store, "/a.rs", "x\na\nb", &tag, &edits, &mut clip).unwrap();
    assert_eq!(done.apply.text, "x\na\nB");
    assert!(!done.warning.is_empty());
}
