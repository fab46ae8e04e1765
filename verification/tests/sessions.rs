use jcode_hashline::format::compute_file_hash;
use jcode_hashline::session::{
    clear_session, record_snapshot, with_session, SessionState, Sessions,
};
use jcode_hashline::snapshots::SnapshotStore;
use jcode_hashline::string_map::StringMap;
use jcode_hashline::types::SNAPSHOT_MAX_BYTES;
use std::collections::BTreeSet;

const PATH: &str = "/tmp/__hashline-snapshots__.ts";
const COLLIDE_A: &str = "line one 263\nline two 4471\n";
const COLLIDE_B: &str = "line one 410\nline two 6970\n";

#[test]
fn a_session_records_on_its_own() {
    let mut state = SessionState::new();
    assert!(state.snapshots.head(PATH).is_none());
    let tag = state.record(PATH, "\u{FEFF}a\r\nb\r\n", None).unwrap();
    assert_eq!(tag, compute_file_hash("a\nb\n"));
    assert_eq!(state.snapshots.by_hash(PATH, &tag).unwrap().text, "a\nb\n");
    assert!(state.record(PATH, &"x".repeat(SNAPSHOT_MAX_BYTES + 1), None).is_none());
    assert_eq!(state.snapshots.head(PATH).unwrap().text, "a\nb\n");
}

#[test]
fn clear_session_drops_snapshots() {
    let mut sessions = Sessions::new();
    let id = "clear-session-test";
    let tag = record_snapshot(&mut sessions, id, "/tmp/hashline-clear.txt", "hello\n", None)
        .expect("tag");
    assert!(!tag.is_empty());
    assert!(with_session(&mut sessions, id).snapshots.head("/tmp/hashline-clear.txt").is_some());
    clear_session(&mut sessions, id);
    assert!(with_session(&mut sessions, id).snapshots.head("/tmp/hashline-clear.txt").is_none());
}

#[test]
fn sessions_do_not_share_snapshots() {
    let mut sessions = Sessions::new();
    record_snapshot(&mut sessions, "a", PATH, "x\n", None);
    assert!(with_session(&mut sessions, "b").snapshots.head(PATH).is_none());
    clear_session(&mut sessions, "b");
    assert!(with_session(&mut sessions, "a").snapshots.head(PATH).is_some());
}

#[test]
fn large_files_are_not_recorded() {
    let mut sessions = Sessions::new();
    let fits = "x".repeat(SNAPSHOT_MAX_BYTES);
    let over = format!("{fits}x");
    assert!(record_snapshot(&mut sessions, "s", PATH, &over, None).is_none());
    assert!(with_session(&mut sessions, "s").snapshots.head(PATH).is_none());
    assert!(record_snapshot(&mut sessions, "s", PATH, &fits, None).is_some());
}

#[test]
fn recorded_text_is_normalized() {
    let mut sessions = Sessions::new();
    let tag = record_snapshot(&mut sessions, "s", PATH, "\u{FEFF}a\r\nb\r\n", Some(&[1])).unwrap();
    let store = &with_session(&mut sessions, "s").snapshots;
    assert_eq!(store.by_hash(PATH, &tag).unwrap().text, "a\nb\n");
}

#[test]
fn fuses_identical_content() {
    let mut store = SnapshotStore::new();
    let a = store.record(PATH, "hello\n", Some(&[1]));
    let b = store.record(PATH, "hello\n", Some(&[2]));
    assert_eq!(a, b);
    assert_eq!(
        store.by_content(PATH, "hello\n").unwrap().seen_lines,
        Some(BTreeSet::from([1, 2]))
    );
}

#[test]
fn collision_pair_stays_distinct() {
    let mut store = SnapshotStore::new();
    let tag_a = store.record(PATH, COLLIDE_A, Some(&[1]));
    let tag_b = store.record(PATH, COLLIDE_B, Some(&[2]));
    assert_eq!(tag_a, tag_b);
    assert_eq!(
        store.by_content(PATH, COLLIDE_A).unwrap().seen_lines,
        Some(BTreeSet::from([1]))
    );
    assert_eq!(
        store.by_content(PATH, COLLIDE_B).unwrap().seen_lines,
        Some(BTreeSet::from([2]))
    );
    assert_eq!(store.by_hash(PATH, &tag_a).unwrap().text, COLLIDE_B);
}

#[test]
fn bounds_versions_per_path() {
    let mut store = SnapshotStore::with_limits(8, 2);
    store.record(PATH, "v1\n", None);
    store.record(PATH, "v2\n", None);
    store.record(PATH, "v3\n", None);
    assert!(store.by_content(PATH, "v1\n").is_none());
    assert!(store.by_content(PATH, "v2\n").is_some());
    assert!(store.by_content(PATH, "v3\n").is_some());
}

#[test]
fn bounds_paths() {
    let mut store = SnapshotStore::with_limits(2, 4);
    store.record("/a", "a\n", None);
    store.record("/b", "b\n", None);
    store.record("/a", "a2\n", None);
    store.record("/c", "c\n", None);
    assert!(store.head("/b").is_none());
    assert_eq!(store.head("/a").unwrap().text, "a2\n");
    assert_eq!(store.head("/c").unwrap().text, "c\n");
}

#[test]
fn snapshots_are_found_by_tag() {
    let mut store = SnapshotStore::new();
    let tag = store.record("/a", "same\n", None);
    store.record("/b", "same\n", None);
    store.record("/b", "other\n", None);
    let mut paths: Vec<String> = store.find_by_hash(&tag).into_iter().map(|s| s.path).collect();
    paths.sort();
    assert_eq!(paths, ["/a", "/b"]);
    assert!(store.find_by_hash("none").is_empty());
}

#[test]
fn seen_lines_are_added() {
    let mut store = SnapshotStore::new();
    let tag = store.record("/a", "x\ny\n", None);
    assert_eq!(store.head("/a").unwrap().seen_lines, None);
    store.record_seen_lines("/a", &tag, &[2, 1]);
    store.record_seen_lines("/a", "none", &[9]);
    assert_eq!(
        store.head("/a").unwrap().seen_lines,
        Some(BTreeSet::from([1, 2]))
    );
    store.by_hash_mut("/a", &tag).unwrap().seen_lines = None;
    assert_eq!(store.head("/a").unwrap().seen_lines, None);
    assert!(store.by_hash_mut("/a", "none").is_none());
    assert!(store.by_content_mut("/a", "x\ny\n").is_some());
    assert!(store.by_content_mut("/a", "x").is_none());
}

#[test]
fn paths_are_forgotten_and_moved() {
    let mut store = SnapshotStore::new();
    let old = store.record("/a", "one\n", None);
    store.record("/b", "two\n", None);
    store.relocate("/a", "/b");
    assert!(store.head("/a").is_none());
    assert_eq!(store.head("/b").unwrap().text, "one\n");
    assert_eq!(store.by_hash("/b", &old).unwrap().path, "/b");
    assert!(store.by_content("/b", "two\n").is_some());
    store.relocate("/none", "/c");
    assert!(store.head("/c").is_none());
    store.invalidate("/b");
    assert!(store.head("/b").is_none());
    store.record("/c", "x\n", None);
    store.clear();
    assert!(store.head("/c").is_none());
}

#[test]
fn string_maps_hold_what_was_put_in() {
    let mut map: StringMap<u32> = StringMap::new();
    assert!(map.is_empty());
    map.insert("a", 1);
    map.insert("b", 2);
    map.insert("a", 3);
    assert_eq!(map.get("a"), Some(&3));
    *map.get_or_insert("c", 0) += 5;
    assert_eq!(map.get("c"), Some(&5));
    *map.get_mut("b").unwrap() = 7;
    assert_eq!(map.remove("b"), Some(7));
    assert_eq!(map.remove("b"), None);
    assert_eq!(map.keys().len(), 2);
}
