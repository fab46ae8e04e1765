//! That the models of values leave nothing out: what a contract says of a model it says of the
//! value.

use crate::batch::{file_views, FileState};
use crate::block::span_view;
use crate::diff::{change_views, TextChange};
use crate::edit::{result_views, EditReport, EditRequest, RequestView, StringEdit};
use crate::format::header_view;
use crate::parse::{parse_result, BodyView, ParsedBody};
use crate::patcher::{
    apply_outcome, prepared_views, ActionView, CommitAction, PatchError, Prepared, SectionResult,
};
use crate::recovery::{map_views, recovery_result, RecoveryResult};
use crate::rows::{row_views, PayloadRow};
use crate::scan::{op_result, Op, OpView, ParseError};
use crate::session::{state_views, SessionState};
use crate::snapshots::{history_views, opt_lines, snapshot_views};
use crate::text::strs;
use crate::types::{
    edit_views, named_texts, opt_file_op, opt_nat, opt_set, opt_strs, opt_text, section_views,
    ApplyResult, ApplyView, BlockSpan, Clipboard, Edit, EditView, FileOp, FileOpView, PatchSection,
    Snapshot,
};
use std::collections::BTreeSet;
use vstd::prelude::*;

verus! {

/// The model of a list has the model of each element in its place.
pub proof fn law_models_of_lists(
    texts: Seq<String>,
    edits: Seq<Edit>,
    sections: Seq<PatchSection>,
    snapshots: Seq<Snapshot>,
    rows: Seq<PayloadRow>,
    changes: Seq<TextChange>,
    results: Seq<SectionResult>,
    prepared: Seq<Prepared>,
    files: Seq<FileState>,
    map: Seq<Option<usize>>,
)
    ensures
        strs(texts).len() == texts.len(),
        forall|i: int| 0 <= i < texts.len() ==> #[trigger] strs(texts)[i] == texts[i]@,
        edit_views(edits).len() == edits.len(),
        forall|i: int| 0 <= i < edits.len() ==> #[trigger] edit_views(edits)[i] == edits[i]@,
        section_views(sections).len() == sections.len(),
        forall|i: int|
            0 <= i < sections.len() ==> #[trigger] section_views(sections)[i] == sections[i]@,
        snapshot_views(snapshots).len() == snapshots.len(),
        forall|i: int|
            0 <= i < snapshots.len() ==> #[trigger] snapshot_views(snapshots)[i] == snapshots[i]@,
        row_views(rows).len() == rows.len(),
        forall|i: int| 0 <= i < rows.len() ==> #[trigger] row_views(rows)[i] == rows[i]@,
        change_views(changes).len() == changes.len(),
        forall|i: int|
            0 <= i < changes.len() ==> #[trigger] change_views(changes)[i] == changes[i]@,
        result_views(results).len() == results.len(),
        forall|i: int|
            0 <= i < results.len() ==> #[trigger] result_views(results)[i] == results[i]@,
        prepared_views(prepared).len() == prepared.len(),
        forall|i: int|
            0 <= i < prepared.len() ==> #[trigger] prepared_views(prepared)[i] == prepared[i]@,
        file_views(files).len() == files.len(),
        forall|i: int| 0 <= i < files.len() ==> #[trigger] file_views(files)[i] == files[i]@,
        map_views(map).len() == map.len(),
        forall|i: int|
            0 <= i < map.len() ==> match (map[i], #[trigger] map_views(map)[i]) {
                (Some(n), Some(m)) => n == m,
                (None, None) => true,
                _ => false,
            },
{
}

/// The model of an optional value is there where the value is, and is that of the value.
pub proof fn law_models_of_options(
    text: String,
    number: usize,
    texts: Vec<String>,
    set: BTreeSet<usize>,
    op: FileOp,
    lines: &[usize],
    span: BlockSpan,
    path: String,
)
    ensures
        opt_text(Some(text)) == Some(text@),
        opt_text(None) is None,
        opt_nat(Some(number)) == Some(number as nat),
        opt_nat(None) is None,
        opt_strs(Some(texts)) == Some(strs(texts@)),
        opt_strs(None) is None,
        opt_set(Some(set)) == Some(set@),
        opt_set(None) is None,
        opt_file_op(Some(op)) == Some(op@),
        opt_file_op(None) is None,
        opt_lines(Some(lines)) == Some(lines@),
        opt_lines(None) is None,
        span_view(Some(span)) == Some((span.start as nat, span.end as nat)),
        span_view(None) is None,
        header_view(Some((path, Some(text)))) == Some((path@, Some(text@))),
        header_view(Some((path, None))) == Some((path@, None::<Seq<char>>)),
        header_view(None) is None,
{
}

/// The model of a map has the same keys, and the model of each value under its key.
pub proof fn law_models_of_maps(
    registers: Map<Seq<char>, Vec<String>>,
    versions: Map<Seq<char>, Vec<Snapshot>>,
    states: Map<Seq<char>, SessionState>,
    key: Seq<char>,
)
    ensures
        named_texts(registers).contains_key(key) <==> registers.contains_key(key),
        registers.contains_key(key) ==> named_texts(registers)[key] == strs(registers[key]@),
        history_views(versions).contains_key(key) <==> versions.contains_key(key),
        versions.contains_key(key) ==> history_views(versions)[key] == snapshot_views(
            versions[key]@,
        ),
        state_views(states).contains_key(key) <==> states.contains_key(key),
        states.contains_key(key) ==> state_views(states)[key] == states[key]@,
{
}

/// The model of an edit is of its kind and has all its parts.
pub proof fn law_model_of_an_edit(edit: Edit)
    ensures
        match edit {
            Edit::Insert { cursor, text, line_num, index, replacement, block_start } => edit@ == (
            EditView::Insert {
                cursor,
                text: text@,
                line_num: line_num as nat,
                index: index as nat,
                replacement,
                block_start,
            }),
            Edit::Delete { anchor, line_num, index } => edit@ == (EditView::Delete {
                anchor,
                line_num: line_num as nat,
                index: index as nat,
            }),
            Edit::Cut { range, register, line_num, index } => edit@ == (EditView::Cut {
                range,
                register: opt_text(register),
                line_num: line_num as nat,
                index: index as nat,
            }),
            Edit::Paste { at, register, line_num, index, block_start } => edit@ == (
            EditView::Paste {
                at,
                register: opt_text(register),
                line_num: line_num as nat,
                index: index as nat,
                block_start,
            }),
            Edit::Block { anchor, payloads, mode, register, line_num, index } => edit@ == (
            EditView::Block {
                anchor,
                payloads: strs(payloads@),
                mode,
                register: opt_text(register),
                line_num: line_num as nat,
                index: index as nat,
            }),
        },
{
}

/// The models of what is kept between edits have all its parts.
pub proof fn law_models_of_states(
    clip: Clipboard,
    snapshot: Snapshot,
    state: SessionState,
    section: PatchSection,
    op: FileOp,
)
    ensures
        clip@.lines == opt_strs(clip.lines),
        clip@.named == named_texts(clip.named@),
        clip@.pending == strs(clip.pending_anon_cuts@),
        snapshot@.path == snapshot.path@,
        snapshot@.text == snapshot.text@,
        snapshot@.hash == snapshot.hash@,
        snapshot@.seen_lines == opt_set(snapshot.seen_lines),
        state@.store == state.snapshots@,
        state@.clip == state.clipboard@,
        section@.path == section.path@,
        section@.file_hash == opt_text(section.file_hash),
        section@.body == section.body@,
        match op {
            FileOp::Rem => op@ == FileOpView::Rem,
            FileOp::Move { dest } => op@ == (FileOpView::Move { dest: dest@ }),
        },
{
}

/// The models of results have all their parts.
pub proof fn law_models_of_results(
    apply: ApplyResult,
    result: SectionResult,
    prepared: Prepared,
    action: CommitAction,
    file: FileState,
    body: ParsedBody,
    op: Op,
    row: PayloadRow,
    change: TextChange,
)
    ensures
        apply@.text == apply.text@,
        apply@.first_changed_line == opt_nat(apply.first_changed_line),
        apply@.warnings == strs(apply.warnings@),
        apply@.block_resolutions == apply.block_resolutions@,
        result@.path == result.path@,
        result@.op == result.op@,
        result@.before == result.before@,
        result@.after == result.after@,
        result@.file_hash == result.file_hash@,
        result@.header == result.header@,
        result@.first_changed_line == opt_nat(result.first_changed_line),
        result@.warnings == strs(result.warnings@),
        result@.block_resolutions == result.block_resolutions@,
        result@.move_dest == opt_text(result.move_dest),
        prepared@.section == prepared.section@,
        prepared@.key == prepared.key@,
        prepared@.bom == prepared.bom@,
        prepared@.line_ending == prepared.line_ending,
        prepared@.normalized == prepared.normalized@,
        prepared@.apply == prepared.apply@,
        prepared@.parse_warnings == strs(prepared.parse_warnings@),
        prepared@.file_op == opt_file_op(prepared.file_op),
        match action {
            CommitAction::Delete => action@ == ActionView::Delete,
            CommitAction::Keep => action@ == ActionView::Keep,
            CommitAction::Write { text } => action@ == (ActionView::Write { text: text@ }),
            CommitAction::Move { dest, text } => action@ == (ActionView::Move {
                dest: dest@,
                text: text@,
            }),
        },
        file@.exists == file.exists,
        file@.is_protected == file.is_protected,
        file@.dest_is_protected == file.dest_is_protected,
        file@.dest_is_source == file.dest_is_source,
        file@.key == file.key@,
        file@.raw == opt_text(file.raw),
        body@.edits == edit_views(body.edits@),
        body@.warnings == strs(body.warnings@),
        body@.file_op == opt_file_op(body.file_op),
        op@.target == op.target,
        op@.register == opt_text(op.register),
        op@.had_colon == op.had_colon,
        row@.text == row.text@,
        row@.line_num == row.line_num,
        row@.bare == row.bare,
        row@.minus == row.minus,
        change@.kind == change.kind,
        change@.value == change.value@,
{
}

/// The models of what the edit tool hands on have all its parts.
pub proof fn law_models_of_string_edits(
    edit: StringEdit,
    report: EditReport,
    request: EditRequest,
)
    ensures
        edit@.content == edit.content@,
        edit@.occurrences == edit.occurrences,
        edit@.start_line == edit.start_line,
        edit@.end_line == edit.end_line,
        report@.body == report.body@,
        report@.summary == report.summary@,
        report@.detail == opt_text(report.detail),
        match request {
            EditRequest::Hashline { patch } => request@ == (RequestView::Hashline {
                patch: patch@,
            }),
            EditRequest::Replace { file_path, old_string, new_string } => request@ == (
            RequestView::Replace {
                file_path: file_path@,
                old_string: old_string@,
                new_string: new_string@,
            }),
        },
{
}

/// A result that agrees with what is expected of it is a success where one is expected, with the
/// expected value, and a failure where one is expected, with the expected message.
pub proof fn law_results_that_agree(
    recovery: Option<RecoveryResult>,
    recovered: Option<(ApplyView, Seq<char>)>,
    op: Result<Op, ParseError>,
    op_expected: Result<OpView, Seq<char>>,
    body: Result<ParsedBody, ParseError>,
    body_expected: Result<BodyView, Seq<char>>,
    apply: Result<ApplyResult, PatchError>,
    apply_expected: Result<ApplyView, Seq<char>>,
)
    ensures
        recovery_result(recovery, recovered) <==> match (recovery, recovered) {
            (Some(r), Some((view, warning))) => r.apply@ == view && r.warning@ == warning,
            (None, None) => true,
            _ => false,
        },
        op_result(op, op_expected) <==> match (op, op_expected) {
            (Ok(a), Ok(b)) => a@ == b,
            (Err(ParseError::Message(a)), Err(b)) => a@ == b,
            _ => false,
        },
        parse_result(body, body_expected) <==> match (body, body_expected) {
            (Ok(a), Ok(b)) => a@ == b,
            (Err(ParseError::Message(a)), Err(b)) => a@ == b,
            _ => false,
        },
        apply_outcome(apply, apply_expected) <==> match (apply, apply_expected) {
            (Ok(a), Ok(b)) => a@ == b,
            (Err(PatchError::Message(a)), Err(b)) => a@ == b,
            _ => false,
        },
{
}

} // verus!
