use jcode_hashline::batch::{plan_patch, FileState, PlanError};
use jcode_hashline::clipboard::commit_clipboard;
use jcode_hashline::format::compute_file_hash;
use jcode_hashline::parse::parse_input;
use jcode_hashline::patcher::{
    apply_with_recovery, commit_action, display_path, finish_commit, parse_section, CommitAction,
    SectionResult,
};
use jcode_hashline::snapshots::SnapshotStore;
use jcode_hashline::types::{Clipboard, FileOp, PatchSection};
use std::collections::BTreeMap;

/// Files in memory, and paths that must not be touched.
#[derive(Default)]
struct Disk {
    files: BTreeMap<String, String>,
    protected: Vec<String>,
}

impl Disk {
    fn with(name: &str, text: &str) -> Disk {
        let mut disk = Disk::default();
        disk.files.insert(name.to_string(), text.to_string());
        disk
    }

    fn read(&self, name: &str) -> &str {
        &self.files[name]
    }

    fn state(&self, path: &str, dest: Option<&str>) -> FileState {
        FileState {
            exists: self.files.contains_key(path),
            is_protected: self.protected.iter().any(|p| p == path),
            dest_is_protected: dest.is_some_and(|d| self.protected.iter().any(|p| p == d)),
            dest_is_source: dest == Some(path),
            key: path.to_string(),
            raw: self.files.get(path).cloned(),
        }
    }

    fn apply(
        &mut self,
        input: &str,
        store: &mut SnapshotStore,
        clip: &mut Clipboard,
    ) -> Result<Vec<SectionResult>, String> {
        let patch = parse_input(input).unwrap();
        let states: Vec<FileState> = patch
            .sections
            .iter()
            .map(|section| {
                let dest = match parse_section(section).ok().and_then(|body| body.file_op) {
                    Some(FileOp::Move { dest }) => Some(dest),
                    _ => None,
                };
                self.state(&section.path, dest.as_deref())
            })
            .collect();
        let (all, batch) = match plan_patch(&patch, &states, store, clip, true) {
            Ok(done) => done,
            Err(PlanError::Patch(e)) => return Err(e.message()),
            Err(PlanError::Unreadable(index)) => return Err(format!("unreadable {index}")),
        };
        let mut results = Vec::new();
        for p in all {
            let mut dest_key = String::new();
            match commit_action(&p) {
                CommitAction::Delete => {
                    self.files.remove(&p.key);
                }
                CommitAction::Keep => {}
                CommitAction::Write { text } => {
                    self.files.insert(p.key.clone(), text);
                }
                CommitAction::Move { dest, text } => {
                    self.files.insert(dest.clone(), text);
                    self.files.remove(&p.key);
                    dest_key = dest;
                }
            }
            results.push(finish_commit(p, store, &dest_key));
        }
        commit_clipboard(&batch, clip);
        Ok(results)
    }
}

fn recorded(name: &str, text: &str) -> (Disk, SnapshotStore, String) {
    let disk = Disk::with(name, text);
    let mut store = SnapshotStore::new();
    let tag = store.record(name, text, None);
    (disk, store, tag)
}

#[test]
fn applies_and_rejects_stale() {
    let text = "def greet(name):\n    print(name)\n";
    let mut disk = Disk::with("greet.py", text);
    let mut store = SnapshotStore::new();
    let tag = store.record("greet.py", text, Some(&[1, 2]));
    let mut clip = Clipboard::default();
    let results = disk
        .apply(
            &format!("[greet.py#{tag}]\nPUT 2.=2:\n+    print(f\"hi {{name}}\")"),
            &mut store,
            &mut clip,
        )
        .unwrap();
    assert_eq!(results.len(), 1);
    assert!(disk.read("greet.py").contains("print(f\"hi {name}\")"));
    let now = disk.read("greet.py").to_string();
    assert_eq!(store.by_hash("greet.py", &results[0].file_hash).unwrap().text, now);
    let err = disk
        .apply(&format!("[greet.py#{tag}]\nPUT 2.=2:\n+    pass"), &mut store, &mut clip)
        .unwrap_err();
    assert!(err.contains("stale"), "{err}");
    assert_eq!(
        err,
        format!(
            "stale hashline tag for greet.py: expected {tag}, live file is {} (file changed since that snapshot). Re-read, then retry.",
            results[0].file_hash
        )
    );
    assert_eq!(disk.read("greet.py"), now);
}

#[test]
fn put_star_replaces_block() {
    let text = "fn greet() {\n    println!(\"a\");\n}\nfn other() {}\n";
    let (mut disk, mut store, tag) = recorded("greet.rs", text);
    let mut clip = Clipboard::default();
    disk.apply(
        &format!("[greet.rs#{tag}]\nPUT 1*:\n+fn greet() {{\n+    println!(\"b\");\n+}}"),
        &mut store,
        &mut clip,
    )
    .unwrap();
    let after = disk.read("greet.rs");
    assert!(after.contains("println!(\"b\")"), "{after}");
    assert!(after.contains("fn other()"), "{after}");
    assert!(!after.contains("println!(\"a\")"), "{after}");
}

#[test]
fn rem_deletes_file() {
    let (mut disk, mut store, tag) = recorded("gone.txt", "bye\n");
    let mut clip = Clipboard::default();
    let results = disk
        .apply(&format!("[gone.txt#{tag}]\nREM"), &mut store, &mut clip)
        .unwrap();
    assert_eq!(results[0].op, "delete");
    assert!(!disk.files.contains_key("gone.txt"));
    assert!(store.head("gone.txt").is_none());
}

#[test]
fn mv_renames_file() {
    let (mut disk, mut store, tag) = recorded("src.txt", "keep\n");
    let mut clip = Clipboard::default();
    let results = disk
        .apply(&format!("[src.txt#{tag}]\nMV dest.txt"), &mut store, &mut clip)
        .unwrap();
    assert_eq!(results[0].move_dest.as_deref(), Some("dest.txt"));
    assert!(!disk.files.contains_key("src.txt"));
    assert_eq!(disk.read("dest.txt"), "keep\n");
    assert_eq!(store.head("dest.txt").unwrap().text, "keep\n");
}

#[test]
fn rem_refuses_protected_files() {
    let (mut disk, mut store, tag) = recorded("home", "x");
    disk.protected.push("home".to_string());
    let mut clip = Clipboard::default();
    let err = disk.apply(&format!("[home#{tag}]\nREM"), &mut store, &mut clip).unwrap_err();
    assert_eq!(
        err,
        "refused, this path is protected and must never be deleted by an agent: home"
    );
    assert_eq!(disk.read("home"), "x");
    // An edit of its lines is no deletion.
    assert!(disk.apply(&format!("[home#{tag}]\nPUT 1:\n+y"), &mut store, &mut clip).is_ok());
}

#[test]
fn mv_refuses_protected_destination() {
    let (mut disk, mut store, tag) = recorded("src.txt", "keep\n");
    disk.protected.push("home".to_string());
    let mut clip = Clipboard::default();
    let err = disk.apply(&format!("[src.txt#{tag}]\nMV home"), &mut store, &mut clip).unwrap_err();
    assert!(err.contains("protected"), "{err}");
    assert_eq!(disk.read("src.txt"), "keep\n");
    assert!(!disk.files.contains_key("home"));
}

#[test]
fn seen_line_reveal_handles_multibyte_lines() {
    let long_line = "\u{5b57}".repeat(300);
    let text = format!("head\n{long_line}\n");
    let mut disk = Disk::with("cjk.txt", &text);
    let mut store = SnapshotStore::new();
    let tag = store.record("cjk.txt", &text, Some(&[1]));
    let mut clip = Clipboard::default();
    let err = disk
        .apply(&format!("[cjk.txt#{tag}]\nPUT 2.=2:\n+replaced"), &mut store, &mut clip)
        .unwrap_err();
    assert!(err.contains("touches lines not shown"), "{err}");
    assert!(err.contains("\n2:"), "reveal must include the long line: {err}");
    assert!(err.ends_with(&format!("\n2:{}…", "\u{5b57}".repeat(170))), "{err}");
}

#[test]
fn unseen_anchor_rejected_then_reveal_merge_retry_applies() {
    let text = "alpha\nbeta\ngamma\n";
    let mut disk = Disk::with("note.txt", text);
    let mut store = SnapshotStore::new();
    let tag = store.record("note.txt", text, Some(&[1]));
    let input = format!("[note.txt#{tag}]\nPUT 3.=3:\n+GAMMA");
    let mut clip = Clipboard::default();
    let err = disk.apply(&input, &mut store, &mut clip).unwrap_err();
    assert!(err.contains("touches lines not shown"), "{err}");
    assert!(err.contains("3:gamma"), "unseen line is revealed: {err}");
    assert_eq!(disk.read("note.txt"), text);
    disk.apply(&input, &mut store, &mut clip).unwrap();
    assert_eq!(disk.read("note.txt"), "alpha\nbeta\nGAMMA\n");
}

#[test]
fn crlf_and_bom_survive_a_round_trip() {
    let mut disk = Disk::with("doc.txt", "\u{FEFF}first\r\nsecond\r\n");
    let mut store = SnapshotStore::new();
    let tag = store.record("doc.txt", "first\nsecond\n", Some(&[1, 2]));
    let mut clip = Clipboard::default();
    disk.apply(&format!("[doc.txt#{tag}]\nPUT 2.=2:\n+SECOND"), &mut store, &mut clip).unwrap();
    assert_eq!(disk.read("doc.txt"), "\u{FEFF}first\r\nSECOND\r\n");
}

#[test]
fn refused_sections() {
    let (mut disk, mut store, tag) = recorded("a.txt", "a\nb\n");
    let mut clip = Clipboard::default();
    let mut refused = |input: &str| disk.apply(input, &mut store, &mut clip).unwrap_err();
    assert_eq!(
        refused("[a.txt]\nCUT 1"),
        "each hashline section needs `[PATH#TAG]` from the latest read/write/edit"
    );
    assert_eq!(
        refused("CUT 1"),
        "each hashline section needs `[PATH#TAG]` from the latest read/write/edit"
    );
    assert_eq!(
        refused(&format!("[none.txt#{tag}]\nCUT 1")),
        "File not found: none.txt. Use the write tool to create new files."
    );
    assert_eq!(
        refused(&format!("[a.txt#{tag}]\nMV \"\"")),
        "MV destination is empty"
    );
    assert_eq!(
        refused(&format!("[a.txt#{tag}]\nMV a.txt")),
        "MV destination is the same as a.txt."
    );
    assert_eq!(
        refused(&format!("[a.txt#{tag}]\nCUT 1\n[a.txt#{tag}]\nCUT 2")),
        "duplicate section for a.txt"
    );
    assert_eq!(
        refused(&format!("[a.txt#{tag}]\nPUT x:")),
        "invalid PUT locator \"x:\""
    );
    assert_eq!(
        refused(&format!("[a.txt#{tag}]\nPUT >9 @x\nPUT >1")),
        "line 2: unlabeled paste with empty anonymous register"
    );
}

#[test]
fn a_refused_section_stops_the_patch() {
    let (mut disk, mut store, tag) = recorded("a.txt", "a\nb\n");
    disk.files.insert("b.txt".to_string(), "b\n".to_string());
    let mut clip = Clipboard::default();
    let err = disk
        .apply(
            &format!("[a.txt#{tag}]\nCUT 1 @x\n[b.txt#0000]\nCUT 1"),
            &mut store,
            &mut clip,
        )
        .unwrap_err();
    assert!(err.contains("hash is not from this session"), "{err}");
    assert_eq!(disk.read("a.txt"), "a\nb\n");
    assert!(clip.named.is_empty());
}

#[test]
fn several_files_share_registers() {
    let (mut disk, mut store, tag) = recorded("a.txt", "a\nb\n");
    disk.files.insert("b.txt".to_string(), "x\n".to_string());
    let other = store.record("b.txt", "x\n", None);
    let mut clip = Clipboard::default();
    let results = disk
        .apply(
            &format!("[a.txt#{tag}]\nCUT 2 @m\n[b.txt#{other}]\nPUT >1 @m"),
            &mut store,
            &mut clip,
        )
        .unwrap();
    assert_eq!(results.len(), 2);
    assert_eq!(disk.read("a.txt"), "a\n");
    assert_eq!(disk.read("b.txt"), "x\nb\n");
    assert_eq!(clip.named.get("m").unwrap(), &["b"]);
}

#[test]
fn sections_without_effect() {
    let (mut disk, mut store, tag) = recorded("a.txt", "a\nb\n");
    let mut clip = Clipboard::default();
    let results = disk
        .apply(&format!("[a.txt#{tag}]\nPUT 1:\n+a"), &mut store, &mut clip)
        .unwrap();
    assert_eq!(results[0].op, "noop");
    disk.files.insert("b.txt".to_string(), "x\n".to_string());
    let other = store.record("b.txt", "x\n", None);
    let err = disk
        .apply(
            &format!("[a.txt#{tag}]\nPUT 1:\n+a\n[b.txt#{other}]\nCUT 1"),
            &mut store,
            &mut clip,
        )
        .unwrap_err();
    assert_eq!(err, "Edits to a.txt resulted in no changes being made.");
    assert_eq!(disk.read("b.txt"), "x\n");
}

#[test]
fn a_stale_tag_neither_deletes_nor_moves_a_file() {
    let (mut disk, mut store, tag) = recorded("a.txt", "a\nb\n");
    let mut clip = Clipboard::default();
    disk.files.insert("a.txt".to_string(), "new\na\nb\n".to_string());
    let live = compute_file_hash("new\na\nb\n");
    for body in ["REM", "MV b.txt"] {
        let err = disk
            .apply(&format!("[a.txt#{tag}]\n{body}"), &mut store, &mut clip)
            .unwrap_err();
        assert_eq!(
            err,
            format!(
                "stale hashline tag for a.txt: expected {tag}, live file is {live} (file changed since that snapshot). Re-read, then retry."
            )
        );
        assert_eq!(disk.files.len(), 1);
        assert_eq!(disk.read("a.txt"), "new\na\nb\n");
    }
    let results = disk
        .apply(&format!("[a.txt#{tag}]\nMV b.txt\nPUT 2:\n+B"), &mut store, &mut clip)
        .unwrap();
    assert_eq!(results[0].warnings.len(), 1);
    assert_eq!(disk.files.len(), 1);
    assert_eq!(disk.read("b.txt"), "new\na\nB\n");
}

#[test]
fn a_section_without_edits_needs_a_live_tag() {
    let mut store = SnapshotStore::new();
    let tag = store.record("a.txt", "a\n", None);
    let mut clip = Clipboard::default();
    let section = PatchSection {
        path: "a.txt".to_string(),
        file_hash: Some(tag),
        body: String::new(),
    };
    let mut applied = |text: &str, file_op: Option<FileOp>| {
        apply_with_recovery(&section, "a.txt", text, &[], &file_op, &mut store, &mut clip, true)
    };
    for file_op in [None, Some(FileOp::Rem), Some(FileOp::Move { dest: "b.txt".to_string() })] {
        assert_eq!(applied("a\n", file_op.clone()).unwrap().text, "a\n");
        let err = applied("b\n", file_op).unwrap_err().message();
        assert!(err.contains("stale"), "{err}");
    }
}

#[test]
fn stale_tags_that_can_be_applied() {
    let (mut disk, mut store, tag) = recorded("a.txt", "a\nb\n");
    let mut clip = Clipboard::default();
    disk.files.insert("a.txt".to_string(), "new\na\nb\n".to_string());
    let results = disk
        .apply(&format!("[a.txt#{tag}]\nPUT >$:\n+tail"), &mut store, &mut clip)
        .unwrap();
    assert_eq!(
        results[0].warnings,
        ["stale tag on a head/tail-only insert; applied onto live content"]
    );
    assert_eq!(disk.read("a.txt"), "new\na\nb\n\ntail");
    let results = disk
        .apply(&format!("[a.txt#{tag}]\nPUT 2:\n+B"), &mut store, &mut clip)
        .unwrap();
    assert_eq!(results[0].warnings.len(), 1);
    assert_eq!(disk.read("a.txt"), "new\na\nB\n\ntail");
}

#[test]
fn unreadable_files_are_reported() {
    let patch = parse_input("[a.txt#1A2B]\nCUT 1").unwrap();
    let state = FileState {
        exists: true,
        is_protected: false,
        dest_is_protected: false,
        dest_is_source: false,
        key: "a.txt".to_string(),
        raw: None,
    };
    let mut store = SnapshotStore::new();
    let clip = Clipboard::default();
    assert!(matches!(
        plan_patch(&patch, &[state], &mut store, &clip, true),
        Err(PlanError::Unreadable(0))
    ));
}

#[test]
fn paths_are_shown_with_slashes() {
    assert_eq!(display_path(Some("a\\b.rs"), "/x/a/b.rs"), "a/b.rs");
    assert_eq!(display_path(None, "/x/a/b.rs"), "/x/a/b.rs");
}
