//! What a patch does to files: the decisions, without the file system.

use crate::apply::{anchors_of, applied, apply_edits, replacing};
use crate::block::{
    block_run, block_span, has_block_edit, law_block_lies_in_text, law_run_without_block_edits,
    resolve_block_edits, BlockRun,
};
use crate::clipboard::{cuts_run_forward, validate_clipboard_sequence, validated};
use crate::format::{compute_file_hash, file_tag, format_hashline_header, header_text};
use crate::language::{
    all_well_formed, is_row, law_block_ops_parsed, law_mv_parsed, law_parsed_edits_are_well_formed,
    law_put_lines_parsed, law_put_replaces_block, law_put_replaces_lines, law_rem_parsed,
    lemma_block_resolved, names_lines, patch_of, put_block, put_lines, well_formed,
    with_lines_replaced,
};
use crate::normalize::{
    bom_of, detect_line_ending, has_no_cr, is_crlf_text, law_endings_round_trip,
    law_line_endings_survive, line_ending_of, normalize_to_lf, restore_line_endings, strip_bom,
    with_endings, without_bom, LineEnding, BOM,
};
use crate::parse::{parse_patch, parsed, BodyView, ParsedBody};
use crate::recovery::{
    hold_same, law_recovered_edits_land_on_equal_lines, lemma_forward_cuts_can_apply,
    lemma_forward_cuts_can_recover, recovered, try_recover,
};
use crate::seen::{after_refusal, refuse_unseen, unseen_lines, unseen_message};
use crate::session::recorded_text;
use crate::snapshots::{
    found, invalidated, law_recorded_text_is_found, recorded, relocated, SnapshotStore, Sought,
    StoreView,
};
use crate::text::{
    all_of, chars_of, is_white, join_lines, lines_of, same_text, starts_with_char, strs, CharClass,
};
use crate::types::{
    copy_edits, copy_opt_string, copy_resolutions, copy_strings, edit_views, opt_file_op, opt_nat,
    opt_text, push_strings, ApplyResult, ApplyView, BlockResolution, Clipboard, ClipboardView, Edit,
    EditView, FileOp, FileOpView, PatchSection, SectionView,
};
use vstd::prelude::*;

verus! {

#[derive(Debug)]
pub enum PatchError {
    Message(String),
}

impl View for PatchError {
    type V = Seq<char>;

    open spec fn view(&self) -> Seq<char> {
        match self {
            PatchError::Message(m) => m@,
        }
    }
}

impl PatchError {
    pub fn message(&self) -> (m: String)
        ensures
            m@ == self@,
    {
        match self {
            PatchError::Message(m) => m.clone(),
        }
    }
}

/// What a section did to its file.
#[derive(Debug)]
pub struct SectionResult {
    pub path: String,
    pub op: &'static str,
    pub before: String,
    pub after: String,
    pub file_hash: String,
    pub header: String,
    pub first_changed_line: Option<usize>,
    pub warnings: Vec<String>,
    pub block_resolutions: Vec<BlockResolution>,
    pub move_dest: Option<String>,
}

/// A section that can be carried out.
pub struct Prepared {
    pub section: PatchSection,
    /// The canonical path of the file.
    pub key: String,
    pub bom: String,
    pub line_ending: LineEnding,
    /// The text of the file, without byte order mark and with LF.
    pub normalized: String,
    pub apply: ApplyResult,
    pub parse_warnings: Vec<String>,
    pub file_op: Option<FileOp>,
}

/// What carrying out a section does to the file system.
#[derive(Debug, PartialEq, Eq)]
pub enum CommitAction {
    /// Remove the file.
    Delete,
    /// Leave the file alone.
    Keep,
    /// Write the file.
    Write { text: String },
    /// Write another file and remove this one.
    Move { dest: String, text: String },
}

// ---------------------------------------------------------------------------------------------
// Models

#[verifier::ext_equal]
pub struct ResultView {
    pub path: Seq<char>,
    pub op: Seq<char>,
    pub before: Seq<char>,
    pub after: Seq<char>,
    pub file_hash: Seq<char>,
    pub header: Seq<char>,
    pub first_changed_line: Option<nat>,
    pub warnings: Seq<Seq<char>>,
    pub block_resolutions: Seq<BlockResolution>,
    pub move_dest: Option<Seq<char>>,
}

impl View for SectionResult {
    type V = ResultView;

    open spec fn view(&self) -> ResultView {
        ResultView {
            path: self.path@,
            op: self.op@,
            before: self.before@,
            after: self.after@,
            file_hash: self.file_hash@,
            header: self.header@,
            first_changed_line: opt_nat(self.first_changed_line),
            warnings: strs(self.warnings@),
            block_resolutions: self.block_resolutions@,
            move_dest: opt_text(self.move_dest),
        }
    }
}

#[verifier::ext_equal]
pub struct PreparedView {
    pub section: SectionView,
    pub key: Seq<char>,
    pub bom: Seq<char>,
    pub line_ending: LineEnding,
    pub normalized: Seq<char>,
    pub apply: ApplyView,
    pub parse_warnings: Seq<Seq<char>>,
    pub file_op: Option<FileOpView>,
}

impl View for Prepared {
    type V = PreparedView;

    open spec fn view(&self) -> PreparedView {
        PreparedView {
            section: self.section@,
            key: self.key@,
            bom: self.bom@,
            line_ending: self.line_ending,
            normalized: self.normalized@,
            apply: self.apply@,
            parse_warnings: strs(self.parse_warnings@),
            file_op: opt_file_op(self.file_op),
        }
    }
}

#[verifier::ext_equal]
pub enum ActionView {
    Delete,
    Keep,
    Write { text: Seq<char> },
    Move { dest: Seq<char>, text: Seq<char> },
}

impl View for CommitAction {
    type V = ActionView;

    open spec fn view(&self) -> ActionView {
        match *self {
            CommitAction::Delete => ActionView::Delete,
            CommitAction::Keep => ActionView::Keep,
            CommitAction::Write { text } => ActionView::Write { text: text@ },
            CommitAction::Move { dest, text } => ActionView::Move { dest: dest@, text: text@ },
        }
    }
}

/// The result of a step, and the store and the clipboard afterwards.
#[verifier::ext_equal]
pub struct Outcome<T> {
    pub result: Result<T, Seq<char>>,
    pub store: StoreView,
    pub clip: ClipboardView,
}

/// The refusal of a stale tag.
pub open spec fn stale_message(
    path: Seq<char>,
    expected: Seq<char>,
    text: Seq<char>,
    recognized: bool,
) -> Seq<char> {
    "stale hashline tag for "@ + path + ": expected "@ + expected + ", live file is "@ + file_tag(
        text,
    ) + " ("@ + (if recognized {
        "file changed since that snapshot"@
    } else {
        "hash is not from this session"@
    }) + "). Re-read, then retry."@
}

/// A stale tag is refused, and the live text is recorded.
pub open spec fn refused<T>(
    section: SectionView,
    key: Seq<char>,
    text: Seq<char>,
    recognized: bool,
    store: StoreView,
    clip: ClipboardView,
) -> Outcome<T> {
    Outcome {
        result: Err(stale_message(section.path, tag_text(section), text, recognized)),
        store: recorded(store, key, text, None),
        clip,
    }
}

/// The tag that a section expects its file to have.
pub open spec fn tag_text(section: SectionView) -> Seq<char> {
    match section.file_hash {
        Some(tag) => tag,
        None => seq![],
    }
}

pub open spec fn is_live(section: SectionView, text: Seq<char>) -> bool {
    file_tag(text) == tag_text(section)
}

pub open spec fn has_blocks(edits: Seq<EditView>) -> bool {
    exists|i: int| 0 <= i < edits.len() && (#[trigger] edits[i]) is Block
}

/// The text that block edits are resolved on: the one that the tag stands for.
pub open spec fn block_base(
    section: SectionView,
    key: Seq<char>,
    text: Seq<char>,
    store: StoreView,
) -> Option<Seq<char>> {
    if is_live(section, text) {
        Some(text)
    } else {
        match found(store, key, Sought::Hash(tag_text(section))) {
            Some(snapshot) => Some(snapshot.text),
            None => None,
        }
    }
}

/// The edits of a section with blocks resolved.
pub open spec fn resolved(
    section: SectionView,
    key: Seq<char>,
    text: Seq<char>,
    edits: Seq<EditView>,
    store: StoreView,
) -> BlockRun {
    let base = match block_base(section, key, text, store) {
        Some(base) => base,
        None => text,
    };
    block_run(edits, base, section.path, true, seq![], seq![])
}

/// Whether an edit names a line.
pub open spec fn names_a_line(edit: EditView) -> bool {
    edit.anchors().len() > 0
}

pub open spec fn is_anchored(edits: Seq<EditView>) -> bool {
    exists|i: int| 0 <= i < edits.len() && names_a_line(#[trigger] edits[i])
}

pub open spec fn prepend(warnings: Seq<Seq<char>>, view: ApplyView) -> ApplyView {
    ApplyView { warnings: warnings + view.warnings, ..view }
}

/// Whether a section leaves the lines of its file alone: it deletes the file or has no edits.
pub open spec fn edits_no_line(file_op: Option<FileOpView>, edits: Seq<EditView>) -> bool {
    file_op == Some(FileOpView::Rem) || edits.len() == 0
}

/// What the edits of a section come to once its blocks are resolved to `run`. Under a stale tag a
/// file is neither deleted nor moved as it is.
pub open spec fn applied_resolved(
    section: SectionView,
    key: Seq<char>,
    text: Seq<char>,
    run: BlockRun,
    file_op: Option<FileOpView>,
    store: StoreView,
    clip: ClipboardView,
    enforce_seen: bool,
) -> Outcome<ApplyView> {
    let edits = run.out;
    let unseen = unseen_lines(store, key, text, edits);
    if !is_live(section, text) && edits_no_line(file_op, edits) {
        refused(
            section,
            key,
            text,
            found(store, key, Sought::Hash(tag_text(section))) is Some,
            store,
            clip,
        )
    } else if file_op == Some(FileOpView::Rem) {
        Outcome {
            result: Ok(
                ApplyView {
                    text,
                    first_changed_line: None,
                    warnings: run.warnings,
                    block_resolutions: seq![],
                },
            ),
            store,
            clip,
        }
    } else if is_live(section, text) {
        if enforce_seen && unseen.len() > 0 {
            Outcome {
                result: Err(
                    unseen_message(section.path, tag_text(section), unseen, lines_of(text)),
                ),
                store: after_refusal(store, key, text, unseen),
                clip,
            }
        } else {
            let (result, after) = applied(text, edits, clip);
            Outcome {
                result: match result {
                    Err(message) => Err(message),
                    Ok(view) => Ok(
                        ApplyView {
                            block_resolutions: run.resolutions,
                            ..prepend(run.warnings, view)
                        },
                    ),
                },
                store,
                clip: after,
            }
        }
    } else if !is_anchored(edits) {
        let (result, after) = applied(text, edits, clip);
        Outcome {
            result: match result {
                Err(message) => Err(message),
                Ok(view) => Ok(prepend(seq![head_tail_warning()] + run.warnings, view)),
            },
            store,
            clip: after,
        }
    } else {
        let tag = tag_text(section);
        let (result, after) = recovered(store, key, text, tag, edits, clip);
        match result {
            Some((view, warning)) => Outcome {
                result: Ok(prepend(seq![warning] + run.warnings, view)),
                store,
                clip: after,
            },
            None => refused(
                section,
                key,
                text,
                found(store, key, Sought::Hash(tag)) is Some,
                store,
                after,
            ),
        }
    }
}

pub open spec fn head_tail_warning() -> Seq<char> {
    "stale tag on a head/tail-only insert; applied onto live content"@
}

/// What the edits of a section come to on the live text of its file.
pub open spec fn section_applied(
    section: SectionView,
    key: Seq<char>,
    text: Seq<char>,
    edits: Seq<EditView>,
    file_op: Option<FileOpView>,
    store: StoreView,
    clip: ClipboardView,
    enforce_seen: bool,
) -> Outcome<ApplyView> {
    let run = resolved(section, key, text, edits, store);
    if has_blocks(edits) && block_base(section, key, text, store) is None {
        refused(section, key, text, false, store, clip)
    } else {
        match run.error {
            Some(message) => Outcome { result: Err(message), store, clip },
            None => match validated(run.out, clip) {
                Err(message) => Outcome { result: Err(message), store, clip },
                Ok(_) => applied_resolved(
                    section,
                    key,
                    text,
                    run,
                    file_op,
                    store,
                    clip,
                    enforce_seen,
                ),
            },
        }
    }
}

/// What is wrong with a file, as far as it can be told before it is read.
pub open spec fn target_error(
    section: SectionView,
    file_op: Option<FileOpView>,
    exists: bool,
    is_protected: bool,
    dest_is_protected: bool,
) -> Option<Seq<char>> {
    if !exists {
        Some(
            "File not found: "@ + section.path + ". Use the write tool to create new files."@,
        )
    } else if file_op is Some && is_protected {
        Some(
            "refused, this path is protected and must never be deleted by an agent: "@
                + section.path,
        )
    } else {
        match file_op {
            Some(FileOpView::Move { dest }) => if dest_is_protected {
                Some(
                    "refused, this path is protected and must never be overwritten by an agent: "@
                        + dest,
                )
            } else {
                None
            },
            _ => None,
        }
    }
}

/// What is wrong with the destination of a move.
pub open spec fn dest_error(
    section: SectionView,
    file_op: Option<FileOpView>,
    dest_is_source: bool,
) -> Option<Seq<char>> {
    match file_op {
        Some(FileOpView::Move { dest }) => if dest.len() == 0 {
            Some("MV destination is empty"@)
        } else if dest_is_source {
            Some("MV destination is the same as "@ + section.path + "."@)
        } else {
            None
        },
        _ => None,
    }
}

/// A section prepared on the contents of its file.
pub open spec fn prepared(
    section: SectionView,
    body: BodyView,
    key: Seq<char>,
    dest_is_source: bool,
    raw: Seq<char>,
    store: StoreView,
    clip: ClipboardView,
    enforce_seen: bool,
) -> Outcome<PreparedView> {
    let normalized = recorded_text(raw);
    match dest_error(section, body.file_op, dest_is_source) {
        Some(message) => Outcome { result: Err(message), store, clip },
        None => {
            let done = section_applied(
                section,
                key,
                normalized,
                body.edits,
                body.file_op,
                store,
                clip,
                enforce_seen,
            );
            Outcome {
                result: match done.result {
                    Err(message) => Err(message),
                    Ok(apply) => Ok(
                        PreparedView {
                            section,
                            key,
                            bom: bom_of(raw),
                            line_ending: line_ending_of(without_bom(raw)),
                            normalized,
                            apply,
                            parse_warnings: body.warnings,
                            file_op: body.file_op,
                        },
                    ),
                },
                store: done.store,
                clip: done.clip,
            }
        },
    }
}

pub open spec fn is_noop(p: PreparedView) -> bool {
    p.apply.text == p.normalized && p.file_op is None
}

/// What is wrong with the sections of a patch taken together, up to the first `count` of them: a
/// file that has two sections, or one of several sections that changes nothing.
pub open spec fn batch_error(all: Seq<PreparedView>, count: nat) -> Option<Seq<char>>
    decreases count,
{
    if count == 0 {
        None
    } else {
        match batch_error(all, (count - 1) as nat) {
            Some(message) => Some(message),
            None => {
                let p = all[count - 1];
                if exists|i: int| 0 <= i < count - 1 && (#[trigger] all[i]).key == p.key {
                    Some("duplicate section for "@ + p.section.path)
                } else if all.len() > 1 && is_noop(p) {
                    Some(
                        "Edits to "@ + p.section.path + " resulted in no changes being made."@,
                    )
                } else {
                    None
                }
            },
        }
    }
}

/// The contents that are written.
pub open spec fn persisted(p: PreparedView) -> Seq<char> {
    p.bom + with_endings(p.apply.text, p.line_ending)
}

pub open spec fn action_of(p: PreparedView) -> ActionView {
    match p.file_op {
        Some(FileOpView::Rem) => ActionView::Delete,
        Some(FileOpView::Move { dest }) => ActionView::Move { dest, text: persisted(p) },
        None => if p.apply.text == p.normalized {
            ActionView::Keep
        } else {
            ActionView::Write { text: persisted(p) }
        },
    }
}

/// The result of a section once its action was carried out, and the store afterwards. `dest_key` is
/// the path that a move went to.
pub open spec fn committed(p: PreparedView, store: StoreView, dest_key: Seq<char>) -> (
    ResultView,
    StoreView,
) {
    let warnings = p.parse_warnings + p.apply.warnings;
    match action_of(p) {
        ActionView::Delete => (
            ResultView {
                path: p.section.path,
                op: "delete"@,
                before: p.normalized,
                after: p.normalized,
                file_hash: file_tag(p.normalized),
                header: header_text(p.section.path, file_tag(p.normalized)),
                first_changed_line: None,
                warnings,
                block_resolutions: seq![],
                move_dest: None,
            },
            invalidated(store, p.key),
        ),
        ActionView::Keep => (
            ResultView {
                path: p.section.path,
                op: "noop"@,
                before: p.normalized,
                after: p.normalized,
                file_hash: file_tag(p.normalized),
                header: header_text(p.section.path, file_tag(p.normalized)),
                first_changed_line: None,
                warnings,
                block_resolutions: p.apply.block_resolutions,
                move_dest: None,
            },
            recorded(store, p.key, p.normalized, None),
        ),
        ActionView::Move { dest, .. } => (
            ResultView {
                path: dest,
                op: "update"@,
                before: p.normalized,
                after: p.apply.text,
                file_hash: file_tag(p.apply.text),
                header: header_text(dest, file_tag(p.apply.text)),
                first_changed_line: p.apply.first_changed_line,
                warnings,
                block_resolutions: p.apply.block_resolutions,
                move_dest: Some(dest),
            },
            recorded(relocated(store, p.key, dest_key), dest_key, p.apply.text, None),
        ),
        ActionView::Write { text } => {
            let read_back = recorded_text(text);
            (
                ResultView {
                    path: p.section.path,
                    op: "update"@,
                    before: p.normalized,
                    after: p.apply.text,
                    file_hash: file_tag(read_back),
                    header: header_text(p.section.path, file_tag(read_back)),
                    first_changed_line: p.apply.first_changed_line,
                    warnings: if read_back == p.apply.text {
                        warnings
                    } else {
                        warnings.push(
                            "write of "@ + p.section.path
                                + " drifted from the in-memory result"@,
                        )
                    },
                    block_resolutions: p.apply.block_resolutions,
                    move_dest: None,
                },
                recorded(store, p.key, read_back, None),
            )
        },
    }
}

// ---------------------------------------------------------------------------------------------
// Facts

/// Cuts that the parser makes run forward.
pub proof fn lemma_parsed_cuts_run_forward(edits: Seq<EditView>)
    requires
        all_well_formed(edits),
    ensures
        cuts_run_forward(edits),
{
    assert forall|i: int| 0 <= i < edits.len() && (#[trigger] edits[i]) is Cut implies
        edits[i]->Cut_range.start.line <= edits[i]->Cut_range.end.line + 1 by {
        assert(well_formed(edits[i], i as nat));
    }
}

// ---------------------------------------------------------------------------------------------
// Executable functions

/// Read the body of a section. A section must name a file and a tag.
pub fn parse_section(section: &PatchSection) -> (res: Result<ParsedBody, PatchError>)
    ensures
        match res {
            Ok(body) => section@.path.len() > 0 && section@.file_hash is Some && parsed(
                section@.body,
                false,
            ) == Ok::<BodyView, Seq<char>>(body@) && cuts_run_forward(body@.edits),
            Err(e) => if section@.path.len() == 0 || section@.file_hash is None {
                e@
                    == "each hashline section needs `[PATH#TAG]` from the latest read/write/edit"@
            } else {
                parsed(section@.body, false) == Err::<BodyView, Seq<char>>(e@)
            },
        },
{
    let no_path = section.path.as_str().as_bytes().len() == 0;
    proof {
        vstd::utf8::encode_utf8_decode_utf8(section.path@);
        assert(vstd::utf8::decode_utf8(seq![]) =~= seq![]);
        if section.path@.len() == 0 {
            assert(vstd::utf8::encode_utf8(section.path@) =~= seq![]);
        }
        if no_path {
            assert(vstd::utf8::encode_utf8(section.path@) =~= seq![]);
        }
    }
    if no_path || section.file_hash.is_none() {
        return Err(
            PatchError::Message(
                "each hashline section needs `[PATH#TAG]` from the latest read/write/edit".to_owned(),
            ),
        );
    }
    match parse_patch(section.body.as_str()) {
        Ok(body) => {
            proof {
                law_parsed_edits_are_well_formed(section@.body, false);
                lemma_parsed_cuts_run_forward(body@.edits);
            }
            Ok(body)
        },
        Err(e) => Err(PatchError::Message(e.message())),
    }
}

/// Whether the file of a section may be read: it exists, and a section that deletes or moves it
/// does not touch a protected path.
pub fn check_target(
    section: &PatchSection,
    file_op: &Option<FileOp>,
    exists: bool,
    is_protected: bool,
    dest_is_protected: bool,
) -> (res: Result<(), PatchError>)
    ensures
        match res {
            Ok(_) => target_error(
                section@,
                opt_file_op(*file_op),
                exists,
                is_protected,
                dest_is_protected,
            ) is None,
            Err(e) => target_error(
                section@,
                opt_file_op(*file_op),
                exists,
                is_protected,
                dest_is_protected,
            ) == Some(e@),
        },
{
    if !exists {
        let mut message = "File not found: ".to_owned();
        message.append(section.path.as_str());
        message.append(". Use the write tool to create new files.");
        return Err(PatchError::Message(message));
    }
    if file_op.is_some() && is_protected {
        let mut message =
            "refused, this path is protected and must never be deleted by an agent: ".to_owned();
        message.append(section.path.as_str());
        return Err(PatchError::Message(message));
    }
    if let Some(FileOp::Move { dest }) = file_op {
        if dest_is_protected {
            let mut message =
                "refused, this path is protected and must never be overwritten by an agent: ".to_owned();
            message.append(dest.as_str());
            return Err(PatchError::Message(message));
        }
    }
    Ok(())
}

fn check_dest(section: &PatchSection, file_op: &Option<FileOp>, dest_is_source: bool) -> (res:
    Result<(), PatchError>)
    ensures
        match res {
            Ok(_) => dest_error(section@, opt_file_op(*file_op), dest_is_source) is None,
            Err(e) => dest_error(section@, opt_file_op(*file_op), dest_is_source) == Some(e@),
        },
{
    if let Some(FileOp::Move { dest }) = file_op {
        if chars_of(dest.as_str()).len() == 0 {
            return Err(PatchError::Message("MV destination is empty".to_owned()));
        }
        if dest_is_source {
            let mut message = "MV destination is the same as ".to_owned();
            message.append(section.path.as_str());
            message.append(".");
            return Err(PatchError::Message(message));
        }
    }
    Ok(())
}

/// Refuse a stale tag and record the live text.
fn mismatch(
    section: &PatchSection,
    store: &mut SnapshotStore,
    key: &str,
    normalized: &str,
    recognized: bool,
) -> (e: PatchError)
    ensures
        e@ == stale_message(section@.path, tag_text(section@), normalized@, recognized),
        final(store)@ == recorded(old(store)@, key@, normalized@, None),
{
    let actual = store.record(key, normalized, None);
    let mut message = "stale hashline tag for ".to_owned();
    message.append(section.path.as_str());
    message.append(": expected ");
    match &section.file_hash {
        Some(tag) => message.append(tag.as_str()),
        None => message.append(""),
    }
    proof {
        reveal_strlit("");
        assert(""@ =~= seq![]);
    }
    message.append(", live file is ");
    message.append(actual.as_str());
    message.append(" (");
    if recognized {
        message.append("file changed since that snapshot");
    } else {
        message.append("hash is not from this session");
    }
    message.append("). Re-read, then retry.");
    PatchError::Message(message)
}

fn any_anchored(edits: &[Edit]) -> (yes: bool)
    ensures
        yes == is_anchored(edit_views(edits@)),
{
    let ghost all = edit_views(edits@);
    let mut i: usize = 0;
    while i < edits.len()
        invariant
            i <= edits.len(),
            all == edit_views(edits@),
            forall|k: int| 0 <= k < i ==> !names_a_line(#[trigger] all[k]),
        decreases edits.len() - i,
    {
        proof {
            assert(all[i as int] == edits@[i as int]@);
        }
        if edits[i].is_anchor_scoped() {
            return true;
        }
        i += 1;
    }
    false
}

/// The warnings in front of those of a result.
fn with_warnings(first: Option<String>, warnings: Vec<String>, result: ApplyResult) -> (r: ApplyResult)
    ensures
        r@ == prepend(
            match first {
                Some(w) => seq![w@] + strs(warnings@),
                None => strs(warnings@),
            },
            result@,
        ),
{
    let mut all: Vec<String> = Vec::new();
    if let Some(warning) = &first {
        all.push(warning.clone());
    }
    let ghost head = strs(all@);
    push_strings(&mut all, warnings.as_slice());
    push_strings(&mut all, result.warnings.as_slice());
    proof {
        if first is Some {
            assert(head =~= seq![first->0@]);
        } else {
            assert(head =~= seq![]);
        }
        assert(strs(all@) =~= head + strs(warnings@) + strs(result.warnings@));
    }
    ApplyResult {
        text: result.text,
        first_changed_line: result.first_changed_line,
        warnings: all,
        block_resolutions: result.block_resolutions,
    }
}

/// Whether a result agrees with an outcome of the model.
pub open spec fn apply_outcome(
    res: Result<ApplyResult, PatchError>,
    expected: Result<ApplyView, Seq<char>>,
) -> bool {
    match res {
        Ok(r) => expected == Ok::<ApplyView, Seq<char>>(r@),
        Err(e) => expected == Err::<ApplyView, Seq<char>>(e@),
    }
}

fn apply_plain(
    first: Option<String>,
    warnings: Vec<String>,
    text: &str,
    edits: &[Edit],
    clipboard: &mut Clipboard,
) -> (res: Result<ApplyResult, PatchError>)
    requires
        cuts_run_forward(edit_views(edits@)),
    ensures
        ({
            let (result, after) = applied(text@, edit_views(edits@), old(clipboard)@);
            let front = match first {
                Some(w) => seq![w@] + strs(warnings@),
                None => strs(warnings@),
            };
            &&& match result {
                Err(message) => apply_outcome(res, Err(message)),
                Ok(view) => apply_outcome(res, Ok(prepend(front, view))),
            }
            &&& final(clipboard)@ == after
        }),
{
    proof {
        lemma_forward_cuts_can_apply(text@, edit_views(edits@), clipboard@);
    }
    match apply_edits(text, edits, Some(clipboard)) {
        Ok(result) => Ok(with_warnings(first, warnings, result)),
        Err(e) => Err(PatchError::Message(e.message())),
    }
}

/// Apply the edits of a section whose blocks are resolved.
fn apply_resolved(
    section: &PatchSection,
    key: &str,
    normalized: &str,
    edits: &[Edit],
    resolutions: Vec<BlockResolution>,
    warnings: Vec<String>,
    file_op: &Option<FileOp>,
    store: &mut SnapshotStore,
    clipboard: &mut Clipboard,
    enforce_seen_lines: bool,
) -> (res: Result<ApplyResult, PatchError>)
    requires
        cuts_run_forward(edit_views(edits@)),
    ensures
        forall|run: BlockRun|
            run.out == edit_views(edits@) && run.resolutions == resolutions@ && run.warnings
                == strs(warnings@) ==> ({
                let done = #[trigger] applied_resolved(
                    section@,
                    key@,
                    normalized@,
                    run,
                    opt_file_op(*file_op),
                    old(store)@,
                    old(clipboard)@,
                    enforce_seen_lines,
                );
                &&& apply_outcome(res, done.result)
                &&& final(store)@ == done.store
                &&& final(clipboard)@ == done.clip
            }),
{
    let empty = String::new();
    let expected = match &section.file_hash {
        Some(tag) => tag.as_str(),
        None => empty.as_str(),
    };
    proof {
        assert(expected@ =~= tag_text(section@));
        assert(edit_views(edits@).len() == edits@.len());
    }
    let actual = compute_file_hash(normalized);
    let live = same_text(actual.as_str(), expected);
    let deletes_file = match file_op {
        Some(FileOp::Rem) => true,
        _ => false,
    };
    if !live && (deletes_file || edits.len() == 0) {
        let recognized = store.by_hash(key, expected).is_some();
        return Err(mismatch(section, store, key, normalized, recognized));
    }
    if deletes_file {
        let none: Vec<BlockResolution> = Vec::new();
        return Ok(
            ApplyResult {
                text: normalized.to_owned(),
                first_changed_line: None,
                warnings,
                block_resolutions: none,
            },
        );
    }
    if live {
        if enforce_seen_lines {
            if let Some(message) = refuse_unseen(
                section.path.as_str(),
                store,
                key,
                normalized,
                expected,
                edits,
            ) {
                return Err(PatchError::Message(message));
            }
        }
        return match apply_plain(None, warnings, normalized, edits, clipboard) {
            Ok(result) => Ok(ApplyResult { block_resolutions: resolutions, ..result }),
            Err(e) => Err(e),
        };
    }
    if !any_anchored(edits) {
        let warning = "stale tag on a head/tail-only insert; applied onto live content".to_owned();
        return apply_plain(Some(warning), warnings, normalized, edits, clipboard);
    }
    proof {
        lemma_forward_cuts_can_recover(
            store@,
            key@,
            normalized@,
            expected@,
            edit_views(edits@),
            clipboard@,
        );
    }
    if let Some(done) = try_recover(store, key, normalized, expected, edits, clipboard) {
        return Ok(with_warnings(Some(done.warning), warnings, done.apply));
    }
    let recognized = store.by_hash(key, expected).is_some();
    Err(mismatch(section, store, key, normalized, recognized))
}

/// Apply the edits of a section to the live text of its file.
pub fn apply_with_recovery(
    section: &PatchSection,
    key: &str,
    normalized: &str,
    edits: &[Edit],
    file_op: &Option<FileOp>,
    store: &mut SnapshotStore,
    clipboard: &mut Clipboard,
    enforce_seen_lines: bool,
) -> (res: Result<ApplyResult, PatchError>)
    requires
        cuts_run_forward(edit_views(edits@)),
    ensures
        ({
            let done = section_applied(
                section@,
                key@,
                normalized@,
                edit_views(edits@),
                opt_file_op(*file_op),
                old(store)@,
                old(clipboard)@,
                enforce_seen_lines,
            );
            &&& apply_outcome(res, done.result)
            &&& final(store)@ == done.store
            &&& final(clipboard)@ == done.clip
        }),
{
    let mut warnings: Vec<String> = Vec::new();
    let mut resolutions: Vec<BlockResolution> = Vec::new();
    let ghost all = edit_views(edits@);
    proof {
        assert(strs(warnings@) =~= seq![]);
        assert(has_blocks(all) == exists|i: int|
            0 <= i < edits@.len() && (#[trigger] edits@[i])@ is Block) by {
            if has_blocks(all) {
                let i = choose|i: int| 0 <= i < all.len() && (#[trigger] all[i]) is Block;
                assert(edits@[i]@ is Block);
            }
            if exists|i: int| 0 <= i < edits@.len() && (#[trigger] edits@[i])@ is Block {
                let i = choose|i: int| 0 <= i < edits@.len() && (#[trigger] edits@[i])@ is Block;
                assert(all[i] is Block);
            }
        }
    }
    let ghost run = resolved(section@, key@, normalized@, all, store@);
    let concrete: Vec<Edit>;
    if has_block_edit(edits) {
        let base = match base_text(section, key, normalized, store) {
            Some(base) => base,
            None => {
                return Err(mismatch(section, store, key, normalized, false));
            },
        };
        match resolve_block_edits(
            edits,
            base.as_str(),
            section.path.as_str(),
            true,
            &mut resolutions,
            &mut warnings,
        ) {
            Ok(out) => {
                concrete = out;
            },
            Err(e) => {
                return Err(PatchError::Message(e.message()));
            },
        }
    } else {
        proof {
            let base = match block_base(section@, key@, normalized@, store@) {
                Some(base) => base,
                None => normalized@,
            };
            law_run_without_block_edits(all, base, section@.path, true, seq![], seq![]);
        }
        concrete = copy_edits(edits);
    }
    match validate_clipboard_sequence(concrete.as_slice(), clipboard) {
        Ok(_) => {},
        Err(e) => {
            return Err(PatchError::Message(e.message()));
        },
    }
    apply_resolved(
        section,
        key,
        normalized,
        concrete.as_slice(),
        resolutions,
        warnings,
        file_op,
        store,
        clipboard,
        enforce_seen_lines,
    )
}

/// The text that the tag of a section stands for.
fn base_text(section: &PatchSection, key: &str, normalized: &str, store: &SnapshotStore) -> (r:
    Option<String>)
    ensures
        match r {
            Some(base) => block_base(section@, key@, normalized@, store@) == Some(base@),
            None => block_base(section@, key@, normalized@, store@) is None,
        },
{
    let empty = String::new();
    let expected = match &section.file_hash {
        Some(tag) => tag.as_str(),
        None => empty.as_str(),
    };
    proof {
        assert(expected@ =~= tag_text(section@));
    }
    let actual = compute_file_hash(normalized);
    if same_text(actual.as_str(), expected) {
        return Some(normalized.to_owned());
    }
    match store.by_hash(key, expected) {
        Some(snapshot) => Some(snapshot.text.clone()),
        None => None,
    }
}

/// Prepare a section on the contents of its file.
pub fn prepare(
    section: &PatchSection,
    body: ParsedBody,
    key: &str,
    dest_is_source: bool,
    raw: &str,
    store: &mut SnapshotStore,
    clipboard: &mut Clipboard,
    enforce_seen_lines: bool,
) -> (res: Result<Prepared, PatchError>)
    requires
        cuts_run_forward(body@.edits),
    ensures
        ({
            let done = prepared(
                section@,
                body@,
                key@,
                dest_is_source,
                raw@,
                old(store)@,
                old(clipboard)@,
                enforce_seen_lines,
            );
            &&& match res {
                Ok(p) => done.result == Ok::<PreparedView, Seq<char>>(p@),
                Err(e) => done.result == Err::<PreparedView, Seq<char>>(e@),
            }
            &&& final(store)@ == done.store
            &&& final(clipboard)@ == done.clip
        }),
{
    match check_dest(section, &body.file_op, dest_is_source) {
        Ok(_) => {},
        Err(e) => {
            return Err(e);
        },
    }
    let (bom, text) = strip_bom(raw);
    let line_ending = detect_line_ending(text);
    let normalized = normalize_to_lf(text);
    match apply_with_recovery(
        section,
        key,
        normalized.as_str(),
        body.edits.as_slice(),
        &body.file_op,
        store,
        clipboard,
        enforce_seen_lines,
    ) {
        Ok(apply) => Ok(
            Prepared {
                section: section.clone(),
                key: key.to_owned(),
                bom: bom.to_owned(),
                line_ending,
                normalized,
                apply,
                parse_warnings: body.warnings,
                file_op: body.file_op,
            },
        ),
        Err(e) => Err(e),
    }
}

pub open spec fn prepared_views(v: Seq<Prepared>) -> Seq<PreparedView> {
    Seq::new(v.len(), |i: int| v[i]@)
}

/// Whether the sections of a patch can be carried out together.
pub fn check_batch(all: &[Prepared]) -> (res: Result<(), PatchError>)
    ensures
        match res {
            Ok(_) => batch_error(prepared_views(all@), all@.len()) is None,
            Err(e) => batch_error(prepared_views(all@), all@.len()) == Some(e@),
        },
{
    let ghost views = prepared_views(all@);
    let mut n: usize = 0;
    while n < all.len()
        invariant
            n <= all.len(),
            views == prepared_views(all@),
            batch_error(views, n as nat) is None,
        decreases all.len() - n,
    {
        let entry = &all[n];
        proof {
            assert(views[n as int] == entry@);
            if batch_error(views, (n + 1) as nat) is Some {
                lemma_batch_error_stays(views, (n + 1) as nat, views.len());
            }
        }
        let mut k: usize = 0;
        while k < n
            invariant
                k <= n < all.len(),
                views == prepared_views(all@),
                *entry == all@[n as int],
                batch_error(views, n as nat) is None,
                batch_error(views, (n + 1) as nat) is Some ==> batch_error(views, views.len())
                    == batch_error(views, (n + 1) as nat),
                forall|i: int| 0 <= i < k ==> (#[trigger] views[i]).key != entry@.key,
            decreases n - k,
        {
            proof {
                assert(views[k as int] == all@[k as int]@);
                assert(views[n as int] == entry@);
            }
            if same_text(all[k].key.as_str(), entry.key.as_str()) {
                let mut message = "duplicate section for ".to_owned();
                message.append(entry.section.path.as_str());
                return Err(PatchError::Message(message));
            }
            k += 1;
        }
        if all.len() > 1 && entry.file_op.is_none() && same_text(
            entry.apply.text.as_str(),
            entry.normalized.as_str(),
        ) {
            let mut message = "Edits to ".to_owned();
            message.append(entry.section.path.as_str());
            message.append(" resulted in no changes being made.");
            return Err(PatchError::Message(message));
        }
        n += 1;
    }
    Ok(())
}

proof fn lemma_batch_error_stays(all: Seq<PreparedView>, n: nat, m: nat)
    requires
        n <= m,
        batch_error(all, n) is Some,
    ensures
        batch_error(all, m) == batch_error(all, n),
    decreases m,
{
    if n < m {
        lemma_batch_error_stays(all, n, (m - 1) as nat);
    }
}

fn persisted_text(p: &Prepared) -> (out: String)
    ensures
        out@ == persisted(p@),
{
    let mut out = p.bom.clone();
    out.append(restore_line_endings(p.apply.text.as_str(), p.line_ending).as_str());
    out
}

impl Clone for SectionResult {
    fn clone(&self) -> (r: Self)
        ensures
            r@ == self@,
    {
        SectionResult {
            path: self.path.clone(),
            op: self.op,
            before: self.before.clone(),
            after: self.after.clone(),
            file_hash: self.file_hash.clone(),
            header: self.header.clone(),
            first_changed_line: self.first_changed_line,
            warnings: copy_strings(self.warnings.as_slice()),
            block_resolutions: copy_resolutions(self.block_resolutions.as_slice()),
            move_dest: copy_opt_string(&self.move_dest),
        }
    }
}

/// What carrying out a section does to the file system.
pub fn commit_action(p: &Prepared) -> (action: CommitAction)
    ensures
        action@ == action_of(p@),
{
    match &p.file_op {
        Some(FileOp::Rem) => CommitAction::Delete,
        Some(FileOp::Move { dest }) => CommitAction::Move {
            dest: dest.clone(),
            text: persisted_text(p),
        },
        None => {
            if same_text(p.apply.text.as_str(), p.normalized.as_str()) {
                CommitAction::Keep
            } else {
                CommitAction::Write { text: persisted_text(p) }
            }
        },
    }
}

/// The result of a section whose action was carried out. `dest_key` is the path that a move went to.
pub fn finish_commit(p: Prepared, store: &mut SnapshotStore, dest_key: &str) -> (r: SectionResult)
    ensures
        ({
            let (expected, after) = committed(p@, old(store)@, dest_key@);
            &&& r@ == expected
            &&& final(store)@ == after
        }),
{
    let mut warnings: Vec<String> = Vec::new();
    push_strings(&mut warnings, p.parse_warnings.as_slice());
    push_strings(&mut warnings, p.apply.warnings.as_slice());
    proof {
        assert(strs(warnings@) =~= strs(p.parse_warnings@) + strs(p.apply.warnings@));
    }
    let action = commit_action(&p);
    match action {
        CommitAction::Delete => {
            store.invalidate(p.key.as_str());
            let file_hash = compute_file_hash(p.normalized.as_str());
            let header = format_hashline_header(p.section.path.as_str(), file_hash.as_str());
            SectionResult {
                path: p.section.path,
                op: "delete",
                before: p.normalized.clone(),
                after: p.normalized,
                file_hash,
                header,
                first_changed_line: None,
                warnings,
                block_resolutions: Vec::new(),
                move_dest: None,
            }
        },
        CommitAction::Keep => {
            let file_hash = store.record(p.key.as_str(), p.normalized.as_str(), None);
            let header = format_hashline_header(p.section.path.as_str(), file_hash.as_str());
            SectionResult {
                path: p.section.path,
                op: "noop",
                before: p.normalized.clone(),
                after: p.normalized,
                file_hash,
                header,
                first_changed_line: None,
                warnings,
                block_resolutions: p.apply.block_resolutions,
                move_dest: None,
            }
        },
        CommitAction::Move { dest, .. } => {
            store.relocate(p.key.as_str(), dest_key);
            let file_hash = store.record(dest_key, p.apply.text.as_str(), None);
            let header = format_hashline_header(dest.as_str(), file_hash.as_str());
            SectionResult {
                path: dest.clone(),
                op: "update",
                before: p.normalized,
                after: p.apply.text,
                file_hash,
                header,
                first_changed_line: p.apply.first_changed_line,
                warnings,
                block_resolutions: p.apply.block_resolutions,
                move_dest: Some(dest),
            }
        },
        CommitAction::Write { text } => {
            let read_back = normalize_to_lf(strip_bom(text.as_str()).1);
            if !same_text(read_back.as_str(), p.apply.text.as_str()) {
                let mut warning = "write of ".to_owned();
                warning.append(p.section.path.as_str());
                warning.append(" drifted from the in-memory result");
                let ghost had = strs(warnings@);
                warnings.push(warning);
                proof {
                    assert(strs(warnings@) =~= had.push(warning@));
                }
            }
            let file_hash = store.record(p.key.as_str(), read_back.as_str(), None);
            let header = format_hashline_header(p.section.path.as_str(), file_hash.as_str());
            SectionResult {
                path: p.section.path,
                op: "update",
                before: p.normalized,
                after: p.apply.text,
                file_hash,
                header,
                first_changed_line: p.apply.first_changed_line,
                warnings,
                block_resolutions: p.apply.block_resolutions,
                move_dest: None,
            }
        },
    }
}

/// A path with forward slashes.
pub open spec fn with_slashes(path: Seq<char>) -> Seq<char> {
    Seq::new(
        path.len(),
        |i: int|
            if path[i] == '\\' {
                '/'
            } else {
                path[i]
            },
    )
}

/// The path that is shown for a file: the one from the working directory on, where there is one,
/// with forward slashes.
pub fn display_path(relative: Option<&str>, path: &str) -> (out: String)
    ensures
        out@ == with_slashes(
            match relative {
                Some(relative) => relative@,
                None => path@,
            },
        ),
{
    let chars = match relative {
        Some(relative) => chars_of(relative),
        None => chars_of(path),
    };
    let ghost shown = with_slashes(chars@);
    let mut out = String::new();
    let mut i: usize = 0;
    proof {
        assert(shown.take(0) =~= seq![]);
    }
    while i < chars.len()
        invariant
            i <= chars.len(),
            shown == with_slashes(chars@),
            out@ == shown.take(i as int),
        decreases chars.len() - i,
    {
        if chars[i] == '\\' {
            out.push('/');
        } else {
            out.push(chars[i]);
        }
        proof {
            assert(out@ =~= shown.take(i + 1));
        }
        i += 1;
    }
    proof {
        assert(shown.take(i as int) =~= shown);
    }
    out
}

// ---------------------------------------------------------------------------------------------
// Laws

/// A stale tag is refused: where the live text does not have the tag of the section, the file is
/// neither deleted nor moved as it is, and edits that name lines are applied only if the lines can
/// be recovered. Else nothing is handed on that could be written, the message names the tag of the
/// live text, and that text is recorded.
pub proof fn law_stale_tag_is_refused(
    section: SectionView,
    key: Seq<char>,
    text: Seq<char>,
    edits: Seq<EditView>,
    file_op: Option<FileOpView>,
    store: StoreView,
    clip: ClipboardView,
    enforce_seen: bool,
)
    requires
        !is_live(section, text),
        ({
            let out = resolved(section, key, text, edits, store).out;
            ||| edits_no_line(file_op, out)
            ||| is_anchored(out) && recovered(
                store,
                key,
                text,
                tag_text(section),
                out,
                clip,
            ).0 is None
        }),
    ensures
        ({
            let done = section_applied(
                section,
                key,
                text,
                edits,
                file_op,
                store,
                clip,
                enforce_seen,
            );
            let run = resolved(section, key, text, edits, store);
            let lost = has_blocks(edits) && block_base(section, key, text, store) is None;
            &&& done.result is Err
            &&& lost || (run.error is None && validated(run.out, clip) is Ok) ==> done.result
                == Err::<ApplyView, Seq<char>>(
                stale_message(
                    section.path,
                    tag_text(section),
                    text,
                    !lost && found(store, key, Sought::Hash(tag_text(section))) is Some,
                ),
            ) && done.store == recorded(store, key, text, None)
        }),
{
}

/// A section is carried out on a stale tag in two cases only: it has edits of which none names a
/// line, or every named line was recovered. A warning says which. The file is not deleted.
pub proof fn law_stale_tag_is_applied_with_a_warning(
    section: SectionView,
    key: Seq<char>,
    text: Seq<char>,
    edits: Seq<EditView>,
    file_op: Option<FileOpView>,
    store: StoreView,
    clip: ClipboardView,
    enforce_seen: bool,
)
    requires
        !is_live(section, text),
    ensures
        section_applied(
            section,
            key,
            text,
            edits,
            file_op,
            store,
            clip,
            enforce_seen,
        ).result matches Ok(view) ==> ({
            let out = resolved(section, key, text, edits, store).out;
            let (result, _) = recovered(store, key, text, tag_text(section), out, clip);
            &&& out.len() > 0
            &&& file_op != Some(FileOpView::Rem)
            &&& view.warnings.len() > 0
            &&& if is_anchored(out) {
                result matches Some((found, warning)) && view.text == found.text
                    && view.warnings[0] == warning
            } else {
                view.warnings[0] == head_tail_warning()
            }
        }),
{
}

/// Edits that name lines and are carried out on a stale tag land only on lines that hold what the
/// lines they were made for held in the snapshot with that tag.
pub proof fn law_stale_edits_land_on_equal_lines(
    section: SectionView,
    key: Seq<char>,
    text: Seq<char>,
    edits: Seq<EditView>,
    file_op: Option<FileOpView>,
    store: StoreView,
    clip: ClipboardView,
    enforce_seen: bool,
)
    requires
        !is_live(section, text),
        is_anchored(resolved(section, key, text, edits, store).out),
        lines_of(text).len() <= usize::MAX,
    ensures
        section_applied(
            section,
            key,
            text,
            edits,
            file_op,
            store,
            clip,
            enforce_seen,
        ).result matches Ok(view) ==> {
            let out = resolved(section, key, text, edits, store).out;
            let old = lines_of(found(store, key, Sought::Hash(tag_text(section)))->0.text);
            exists|moved: Seq<EditView>|
                {
                    &&& moved.len() == out.len()
                    &&& (#[trigger] applied(text, moved, clip)).0 matches Ok(done)
                    &&& view.text == done.text
                    &&& forall|i: int|
                        0 <= i < out.len() ==> hold_same(
                            old,
                            lines_of(text),
                            out[i].anchors(),
                            (#[trigger] moved[i]).anchors(),
                        )
                }
        },
{
    let out = resolved(section, key, text, edits, store).out;
    law_recovered_edits_land_on_equal_lines(store, key, text, tag_text(section), out, clip);
}

/// Edits on lines that the reads under the live tag did not show are refused where this is enforced,
/// and the clipboard stays as it was. The message names the lines.
pub proof fn law_unseen_lines_are_refused(
    section: SectionView,
    key: Seq<char>,
    text: Seq<char>,
    edits: Seq<EditView>,
    file_op: Option<FileOpView>,
    store: StoreView,
    clip: ClipboardView,
)
    requires
        is_live(section, text),
        file_op != Some(FileOpView::Rem),
        resolved(section, key, text, edits, store).error is None,
        validated(resolved(section, key, text, edits, store).out, clip) is Ok,
        unseen_lines(
            store,
            key,
            text,
            resolved(section, key, text, edits, store).out,
        ).len() > 0,
    ensures
        ({
            let done = section_applied(section, key, text, edits, file_op, store, clip, true);
            let unseen = unseen_lines(
                store,
                key,
                text,
                resolved(section, key, text, edits, store).out,
            );
            &&& done.result == Err::<ApplyView, Seq<char>>(
                unseen_message(section.path, tag_text(section), unseen, lines_of(text)),
            )
            &&& done.clip == clip
        }),
{
}

/// A text that holds no CR, and does not begin with a byte order mark of its own, comes back from
/// what is written for it.
pub proof fn law_written_text_reads_back(p: PreparedView)
    requires
        p.bom == seq![BOM] || (p.bom.len() == 0 && !starts_with_char(p.apply.text, BOM)),
        has_no_cr(p.apply.text),
    ensures
        recorded_text(persisted(p)) == p.apply.text,
{
    let body = with_endings(p.apply.text, p.line_ending);
    law_endings_round_trip(p.apply.text, p.line_ending);
    if p.bom.len() == 0 {
        assert(persisted(p) =~= body);
        lemma_first_kept(p.apply.text, p.line_ending);
        assert(body.skip(0) =~= body);
    } else {
        assert(persisted(p).skip(1) =~= body);
    }
}

proof fn lemma_first_kept(text: Seq<char>, ending: LineEnding)
    requires
        !starts_with_char(text, BOM),
    ensures
        !starts_with_char(with_endings(text, ending), BOM),
    decreases text.len(),
{
    if text.len() > 0 && ending == LineEnding::CrLf {
        let front = text.drop_last();
        if front.len() > 0 {
            assert(front[0] == text[0]);
        }
        lemma_first_kept(front, ending);
        if front.len() > 0 {
            lemma_crlf_nonempty(front);
        }
    }
}

proof fn lemma_crlf_nonempty(text: Seq<char>)
    requires
        text.len() > 0,
    ensures
        crate::normalize::crlf_text(text).len() > 0,
{
}

/// Reading a file and writing back what was read restores it, byte order mark and line endings
/// included, provided that its line breaks are all alike.
pub proof fn law_file_survives(raw: Seq<char>, p: PreparedView)
    requires
        p.bom == bom_of(raw),
        p.line_ending == line_ending_of(without_bom(raw)),
        p.apply.text == recorded_text(raw),
        has_no_cr(without_bom(raw)) || is_crlf_text(without_bom(raw)),
    ensures
        persisted(p) == raw,
{
    law_line_endings_survive(without_bom(raw));
    assert(bom_of(raw) + without_bom(raw) =~= raw);
}

/// Each edit remints the tag: the tag of a result is that of the text that a read of the written
/// file gives, and it leads to that text in the store.
pub proof fn law_reminted_tag_is_live(p: PreparedView, store: StoreView, dest_key: Seq<char>)
    requires
        store.max_versions >= 1,
        action_of(p) is Write,
    ensures
        ({
            let (result, after) = committed(p, store, dest_key);
            let live = recorded_text(persisted(p));
            &&& result.file_hash == file_tag(live)
            &&& found(after, p.key, Sought::Hash(result.file_hash)) matches Some(snapshot)
                && snapshot.text == live
        }),
{
    law_recorded_text_is_found(store, p.key, recorded_text(persisted(p)), None);
}

/// A patch for the live tag that replaces the lines A to B does that to the file, whatever its line
/// endings, provided that the lines were shown where this is enforced.
pub proof fn law_fresh_patch_replaces_lines(
    path: Seq<char>,
    key: Seq<char>,
    raw: Seq<char>,
    a: usize,
    b: usize,
    rows: Seq<Seq<char>>,
    store: StoreView,
    clip: ClipboardView,
    enforce_seen: bool,
)
    requires
        names_lines(recorded_text(raw), a, b),
        rows.len() > 0,
        forall|i: int| 0 <= i < rows.len() ==> is_row(#[trigger] rows[i]),
        enforce_seen ==> unseen_lines(
            store,
            key,
            recorded_text(raw),
            replacing(a, b, rows, 1, 0),
        ).len() == 0,
    ensures
        ({
            let text = recorded_text(raw);
            let section = SectionView {
                path,
                file_hash: Some(file_tag(text)),
                body: patch_of(put_lines(a, b), rows),
            };
            parsed(section.body, false) matches Ok(body) && prepared(
                section,
                body,
                key,
                false,
                raw,
                store,
                clip,
                enforce_seen,
            ).result matches Ok(p) && p.apply.text == join_lines(
                with_lines_replaced(lines_of(text), a, b, rows),
            ) && p.bom == bom_of(raw) && p.line_ending == line_ending_of(without_bom(raw))
        }),
{
    let text = recorded_text(raw);
    let edits = replacing(a, b, rows, 1, 0);
    law_put_replaces_lines(text, a, b, rows, clip);
    law_put_lines_parsed(a, b, rows);
    law_run_without_block_edits(edits, text, path, true, seq![], seq![]);
    lemma_validated_without_pastes(edits, clip);
}

/// A patch for the live tag that replaces the block on line N does that to the file and reports the
/// block, provided that its lines were shown where this is enforced.
pub proof fn law_fresh_patch_replaces_block(
    path: Seq<char>,
    key: Seq<char>,
    raw: Seq<char>,
    n: usize,
    end: usize,
    rows: Seq<Seq<char>>,
    store: StoreView,
    clip: ClipboardView,
    enforce_seen: bool,
)
    requires
        block_span(path, recorded_text(raw), n as nat) == Some((n as nat, end as nat)),
        rows.len() > 0,
        forall|i: int| 0 <= i < rows.len() ==> is_row(#[trigger] rows[i]),
        enforce_seen ==> unseen_lines(
            store,
            key,
            recorded_text(raw),
            replacing(n, end, rows, 1, 0),
        ).len() == 0,
    ensures
        ({
            let text = recorded_text(raw);
            let section = SectionView {
                path,
                file_hash: Some(file_tag(text)),
                body: patch_of(put_block(n), rows),
            };
            parsed(section.body, false) matches Ok(body) && prepared(
                section,
                body,
                key,
                false,
                raw,
                store,
                clip,
                enforce_seen,
            ).result matches Ok(p) && p.apply.text == join_lines(
                with_lines_replaced(lines_of(text), n, end, rows),
            ) && p.apply.block_resolutions == seq![BlockResolution { line: n, start: n, end }]
        }),
{
    let text = recorded_text(raw);
    let edits = replacing(n, end, rows, 1, 0);
    law_block_lies_in_text(path, text, n as nat);
    law_put_replaces_block(path, text, n, end, rows, clip);
    law_block_ops_parsed(n, rows);
    let body = parsed(patch_of(put_block(n), rows), false)->Ok_0;
    assert(body.edits[0] is Block);
    lemma_block_resolved(body.edits[0], text, path, n, end);
    assert(body.edits =~= seq![body.edits[0]]);
    lemma_validated_without_pastes(edits, clip);
}

/// `REM` under the live tag deletes the file, and its snapshots are forgotten.
pub proof fn law_rem_deletes_file(
    path: Seq<char>,
    tag: Seq<char>,
    key: Seq<char>,
    raw: Seq<char>,
    store: StoreView,
    clip: ClipboardView,
    enforce_seen: bool,
)
    requires
        tag == file_tag(recorded_text(raw)),
    ensures
        ({
            let section = SectionView { path, file_hash: Some(tag), body: "REM"@ };
            parsed(section.body, false) matches Ok(body) && prepared(
                section,
                body,
                key,
                false,
                raw,
                store,
                clip,
                enforce_seen,
            ) matches Outcome { result: Ok(p), store: same, .. } && same == store && action_of(p)
                == ActionView::Delete && committed(p, store, seq![]).1 == invalidated(store, key)
                && committed(p, store, seq![]).0.op == "delete"@
        }),
{
    law_rem_parsed();
    let body = parsed("REM"@, false)->Ok_0;
    assert(body.edits =~= seq![]);
    let section = SectionView { path, file_hash: Some(tag), body: "REM"@ };
    let text = recorded_text(raw);
    let base = match block_base(section, key, text, store) {
        Some(base) => base,
        None => text,
    };
    law_run_without_block_edits(seq![], base, path, true, seq![], seq![]);
}

/// `MV DEST` under the live tag moves the file as it is: the text is kept, the destination is
/// named, and what was recorded of the file is recorded of the destination.
pub proof fn law_mv_moves_file(
    path: Seq<char>,
    tag: Seq<char>,
    key: Seq<char>,
    raw: Seq<char>,
    dest: Seq<char>,
    dest_key: Seq<char>,
    store: StoreView,
    clip: ClipboardView,
    enforce_seen: bool,
)
    requires
        tag == file_tag(recorded_text(raw)),
        dest.len() > 0,
        all_of(dest, CharClass::InLine),
        !is_white(dest[0]),
        !is_white(dest.last()),
        dest[0] != '"' && dest[0] != '\'',
        store.max_versions >= 1,
    ensures
        ({
            let section = SectionView { path, file_hash: Some(tag), body: "MV "@ + dest };
            let text = recorded_text(raw);
            parsed(section.body, false) matches Ok(body) && prepared(
                section,
                body,
                key,
                false,
                raw,
                store,
                clip,
                enforce_seen,
            ).result matches Ok(p) && {
                let (result, after) = committed(p, store, dest_key);
                &&& p.apply.text == text
                &&& action_of(p) == (ActionView::Move { dest, text: persisted(p) })
                &&& has_no_cr(without_bom(raw)) || is_crlf_text(without_bom(raw)) ==> persisted(p)
                    == raw
                &&& result.move_dest == Some(dest)
                &&& result.file_hash == file_tag(text)
                &&& found(after, dest_key, Sought::Hash(file_tag(text))) matches Some(snapshot)
                    && snapshot.text == text
            }
        }),
{
    law_mv_parsed(dest);
    let body = parsed("MV "@ + dest, false)->Ok_0;
    assert(body.edits =~= seq![]);
    let section = SectionView { path, file_hash: Some(tag), body: "MV "@ + dest };
    let text = recorded_text(raw);
    let base = match block_base(section, key, text, store) {
        Some(base) => base,
        None => text,
    };
    law_run_without_block_edits(seq![], base, path, true, seq![], seq![]);
    assert(anchors_of(seq![]) =~= seq![]);
    assert(unseen_lines(store, key, text, seq![]).len() == 0);
    let p = prepared(section, body, key, false, raw, store, clip, enforce_seen).result->Ok_0;
    if has_no_cr(without_bom(raw)) || is_crlf_text(without_bom(raw)) {
        law_file_survives(raw, p);
    }
    law_recorded_text_is_found(relocated(store, key, dest_key), dest_key, text, None);
}

/// Edits without cuts and pastes pass the clipboard check.
proof fn lemma_validated_without_pastes(edits: Seq<EditView>, clip: ClipboardView)
    requires
        forall|i: int| 0 <= i < edits.len() ==> (#[trigger] edits[i]) is Insert || edits[i] is Delete,
    ensures
        validated(edits, clip) is Ok,
    decreases edits.len(),
{
    if edits.len() > 0 {
        let less = edits.drop_last();
        assert forall|i: int| 0 <= i < less.len() implies (#[trigger] less[i]) is Insert
            || less[i] is Delete by {
            assert(less[i] == edits[i]);
        }
        lemma_validated_without_pastes(less, clip);
        assert(edits.last() == edits[edits.len() - 1]);
    }
}

} // verus!
