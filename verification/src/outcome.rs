//! What a section of a patch comes to, from its file as it was read to the file as it is written.

use crate::apply::applied;
use crate::batch::{batch_clipboard, plan_run, plan_step, planned, FileView, PlanErrorView, PlanRun};
use crate::block::block_run;
use crate::clipboard::validated;
use crate::format::file_tag;
use crate::normalize::{bom_of, line_ending_of, with_endings, without_bom, BOM};
use crate::parse::{parsed, BodyView};
use crate::patcher::{
    action_of, batch_error, committed, is_anchored, is_live, names_a_line, prepared, resolved,
    section_applied, tag_text, target_error, ActionView, Outcome, PreparedView,
};
use crate::recovery::recovered;
use crate::seen::unseen_lines;
use crate::session::recorded_text;
use crate::snapshots::{found, invalidated, recorded, relocated, Sought, StoreView};
use crate::types::{ApplyView, ClipboardView, EditView, FileOpView, PasteTarget, SectionView};
use vstd::prelude::*;

verus! {

// ---------------------------------------------------------------------------------------------
// Edits

/// Blocks are resolved on the text that the tag stands for: the live text where it has the tag,
/// else the snapshot with the tag.
pub proof fn law_blocks_are_resolved_on_tagged_text(
    section: SectionView,
    key: Seq<char>,
    text: Seq<char>,
    edits: Seq<EditView>,
    store: StoreView,
)
    ensures
        section.file_hash == Some(file_tag(text)) ==> resolved(section, key, text, edits, store)
            == block_run(edits, text, section.path, true, seq![], seq![]),
        section.file_hash matches Some(tag) && tag != file_tag(text) && (found(
            store,
            key,
            Sought::Hash(tag),
        ) matches Some(snapshot)) ==> resolved(section, key, text, edits, store) == block_run(
            edits,
            found(store, key, Sought::Hash(section.file_hash->0))->0.text,
            section.path,
            true,
            seq![],
            seq![],
        ),
{
}

/// Under the tag of the live text the edits are applied to that text, with their blocks resolved on
/// it, unless they touch lines that were not shown and this is enforced. What was said about blocks
/// comes before what is said about edits. The registers are those after the edits, and nothing is
/// recorded.
pub proof fn law_live_section_is_applied(
    section: SectionView,
    key: Seq<char>,
    text: Seq<char>,
    edits: Seq<EditView>,
    file_op: Option<FileOpView>,
    store: StoreView,
    clip: ClipboardView,
    enforce_seen: bool,
)
    requires
        section.file_hash == Some(file_tag(text)),
        file_op != Some(FileOpView::Rem),
        ({
            let run = block_run(edits, text, section.path, true, seq![], seq![]);
            &&& run.error is None
            &&& validated(run.out, clip) is Ok
            &&& !enforce_seen || unseen_lines(store, key, text, run.out).len() == 0
        }),
    ensures
        ({
            let run = block_run(edits, text, section.path, true, seq![], seq![]);
            let done = section_applied(
                section,
                key,
                text,
                edits,
                file_op,
                store,
                clip,
                enforce_seen,
            );
            let (result, after) = applied(text, run.out, clip);
            &&& done.store == store
            &&& done.clip == after
            &&& match result {
                Err(message) => done.result == Err::<ApplyView, Seq<char>>(message),
                Ok(view) => done.result == Ok::<ApplyView, Seq<char>>(
                    ApplyView {
                        text: view.text,
                        first_changed_line: view.first_changed_line,
                        warnings: run.warnings + view.warnings,
                        block_resolutions: run.resolutions,
                    },
                ),
            }
        }),
{
}

/// A block that cannot be resolved and a paste that finds nothing are refused before anything else
/// is looked at, with the message that says so. Nothing is recorded, and the registers stay.
pub proof fn law_unresolved_section_is_refused(
    section: SectionView,
    key: Seq<char>,
    text: Seq<char>,
    edits: Seq<EditView>,
    file_op: Option<FileOpView>,
    store: StoreView,
    clip: ClipboardView,
    enforce_seen: bool,
)
    requires
        section.file_hash == Some(file_tag(text)),
    ensures
        ({
            let run = block_run(edits, text, section.path, true, seq![], seq![]);
            let done = section_applied(
                section,
                key,
                text,
                edits,
                file_op,
                store,
                clip,
                enforce_seen,
            );
            &&& run.error matches Some(message) ==> done == (Outcome {
                result: Err::<ApplyView, Seq<char>>(message),
                store,
                clip,
            })
            &&& run.error is None ==> (validated(run.out, clip) matches Err(message) ==> done == (
            Outcome { result: Err::<ApplyView, Seq<char>>(message), store, clip }))
        }),
{
}

/// Edits count as tied to lines where one of them names a line. What goes to the head or the tail
/// names none.
pub proof fn law_edits_tied_to_lines(edits: Seq<EditView>)
    ensures
        is_anchored(edits) <==> exists|i: int|
            0 <= i < edits.len() && match #[trigger] edits[i] {
                EditView::Insert { cursor, .. } => !(cursor is Bof) && !(cursor is Eof),
                EditView::Paste { at: PasteTarget::Gap { cursor }, .. } => !(cursor is Bof) && !(
                cursor is Eof),
                _ => true,
            },
{
    assert forall|i: int| 0 <= i < edits.len() implies names_a_line(#[trigger] edits[i]) == match edits[i] {
        EditView::Insert { cursor, .. } => !(cursor is Bof) && !(cursor is Eof),
        EditView::Paste { at: PasteTarget::Gap { cursor }, .. } => !(cursor is Bof) && !(
        cursor is Eof),
        _ => true,
    } by {}
}

/// The registers that a patch starts with are the named ones; nothing is in the anonymous one, and
/// no cut waits for a paste.
pub proof fn law_patch_starts_with_named_registers(clip: ClipboardView)
    ensures
        batch_clipboard(clip).named == clip.named,
        batch_clipboard(clip).lines is None,
        batch_clipboard(clip).pending.len() == 0,
{
}

/// What is carried out on a stale tag says so first, then what was said about blocks and about
/// edits. Nothing is recorded.
pub proof fn law_stale_section_in_full(
    section: SectionView,
    key: Seq<char>,
    text: Seq<char>,
    edits: Seq<EditView>,
    file_op: Option<FileOpView>,
    store: StoreView,
    clip: ClipboardView,
    enforce_seen: bool,
)
    requires
        !is_live(section, text),
    ensures
        ({
            let done = section_applied(
                section,
                key,
                text,
                edits,
                file_op,
                store,
                clip,
                enforce_seen,
            );
            let run = resolved(section, key, text, edits, store);
            done.result matches Ok(view) ==> {
                &&& done.store == store
                &&& if is_anchored(run.out) {
                    let (result, after) = recovered(
                        store,
                        key,
                        text,
                        tag_text(section),
                        run.out,
                        clip,
                    );
                    result matches Some((got, warning)) && view.text == got.text
                        && view.first_changed_line == got.first_changed_line && view.warnings
                        == seq![warning] + run.warnings + got.warnings && done.clip == after
                } else {
                    let (result, after) = applied(text, run.out, clip);
                    result matches Ok(got) && view.text == got.text && view.first_changed_line
                        == got.first_changed_line && view.warnings == seq![
                        "stale tag on a head/tail-only insert; applied onto live content"@,
                    ] + run.warnings + got.warnings && done.clip == after
                }
            }
        }),
{
}

// ---------------------------------------------------------------------------------------------
// Files

/// What is refused of a file before it is read: one that is not there, a protected one that is to
/// be deleted or moved, and a protected one that a move would overwrite.
pub proof fn law_targets_that_are_refused(
    section: SectionView,
    file_op: Option<FileOpView>,
    is_there: bool,
    is_protected: bool,
    dest_is_protected: bool,
)
    ensures
        ({
            let error = target_error(section, file_op, is_there, is_protected, dest_is_protected);
            if !is_there {
                error == Some(
                    "File not found: "@ + section.path
                        + ". Use the write tool to create new files."@,
                )
            } else if file_op is Some && is_protected {
                error == Some(
                    "refused, this path is protected and must never be deleted by an agent: "@
                        + section.path,
                )
            } else {
                match file_op {
                    Some(FileOpView::Move { dest }) => if dest_is_protected {
                        error == Some(
                            "refused, this path is protected and must never be overwritten by an agent: "@
                                + dest,
                        )
                    } else {
                        error is None
                    },
                    _ => error is None,
                }
            }
        }),
{
}

/// A section is prepared on its file: the text is that of the file without byte order mark and with
/// line feeds alone, the mark and the line endings are kept for writing, and the edits are those of
/// the section. A move to nowhere or onto the file itself is refused.
pub proof fn law_section_is_prepared_on_its_file(
    section: SectionView,
    body: BodyView,
    key: Seq<char>,
    dest_is_source: bool,
    raw: Seq<char>,
    store: StoreView,
    clip: ClipboardView,
    enforce_seen: bool,
)
    ensures
        ({
            let done = prepared(
                section,
                body,
                key,
                dest_is_source,
                raw,
                store,
                clip,
                enforce_seen,
            );
            let text = recorded_text(raw);
            let refused = body.file_op matches Some(FileOpView::Move { dest }) && (dest.len() == 0
                || dest_is_source);
            let applied = section_applied(
                section,
                key,
                text,
                body.edits,
                body.file_op,
                store,
                clip,
                enforce_seen,
            );
            if refused {
                done.result is Err && done.store == store && done.clip == clip
            } else {
                &&& done.store == applied.store
                &&& done.clip == applied.clip
                &&& match done.result {
                    Err(message) => applied.result == Err::<ApplyView, Seq<char>>(message),
                    Ok(p) => {
                        &&& applied.result == Ok::<ApplyView, Seq<char>>(p.apply)
                        &&& p.section == section
                        &&& p.key == key
                        &&& p.normalized == text
                        &&& p.bom + without_bom(raw) == raw
                        &&& p.bom.len() == 0 || p.bom == seq![BOM]
                        &&& p.bom.len() == 0 ==> !(raw.len() > 0 && raw[0] == BOM)
                        &&& p.line_ending == line_ending_of(without_bom(raw))
                        &&& p.parse_warnings == body.warnings
                        &&& p.file_op == body.file_op
                    },
                }
            }
        }),
{
    assert(bom_of(raw) + without_bom(raw) =~= raw);
}

/// What is done to a file: it is deleted or moved where the section says so, left alone where
/// nothing changed, and written otherwise. What is written is the new text with the byte order mark
/// and the line endings that the file had.
pub proof fn law_action_on_a_file(p: PreparedView)
    ensures
        match action_of(p) {
            ActionView::Delete => p.file_op == Some(FileOpView::Rem),
            ActionView::Keep => p.file_op is None && p.apply.text == p.normalized,
            ActionView::Write { text } => p.file_op is None && p.apply.text != p.normalized && text
                == p.bom + with_endings(p.apply.text, p.line_ending),
            ActionView::Move { dest, text } => p.file_op == Some(FileOpView::Move { dest }) && text
                == p.bom + with_endings(p.apply.text, p.line_ending),
        },
{
}

/// What is reported of a file and recorded once the action was carried out. A deleted file is
/// forgotten; of a moved one the snapshots move along, and the new text is recorded under the new
/// path; else the text that a read of the file gives is recorded. The header in the report names
/// that path and the tag of that text.
pub proof fn law_report_on_a_file(p: PreparedView, store: StoreView, dest_key: Seq<char>)
    ensures
        ({
            let (r, after) = committed(p, store, dest_key);
            let said = p.parse_warnings + p.apply.warnings;
            &&& r.before == p.normalized
            &&& r.header == seq!['['] + r.path + seq!['#'] + r.file_hash + seq![']']
            &&& match p.file_op {
                Some(FileOpView::Rem) => {
                    &&& r.op == "delete"@ && r.path == p.section.path && r.after == p.normalized
                    &&& r.file_hash == file_tag(p.normalized)
                    &&& r.first_changed_line is None && r.move_dest is None
                    &&& r.warnings == said
                    &&& after == invalidated(store, p.key)
                },
                Some(FileOpView::Move { dest }) => {
                    &&& r.op == "update"@ && r.path == dest && r.after == p.apply.text
                    &&& r.file_hash == file_tag(p.apply.text)
                    &&& r.first_changed_line == p.apply.first_changed_line && r.move_dest == Some(
                        dest,
                    )
                    &&& r.warnings == said && r.block_resolutions == p.apply.block_resolutions
                    &&& after == recorded(
                        relocated(store, p.key, dest_key),
                        dest_key,
                        p.apply.text,
                        None,
                    )
                },
                None => if p.apply.text == p.normalized {
                    &&& r.op == "noop"@ && r.path == p.section.path && r.after == p.normalized
                    &&& r.file_hash == file_tag(p.normalized)
                    &&& r.first_changed_line is None && r.move_dest is None
                    &&& r.warnings == said && r.block_resolutions == p.apply.block_resolutions
                    &&& after == recorded(store, p.key, p.normalized, None)
                } else {
                    let read = recorded_text(p.bom + with_endings(p.apply.text, p.line_ending));
                    &&& r.op == "update"@ && r.path == p.section.path && r.after == p.apply.text
                    &&& r.file_hash == file_tag(read)
                    &&& r.first_changed_line == p.apply.first_changed_line && r.move_dest is None
                    &&& r.block_resolutions == p.apply.block_resolutions
                    &&& read == p.apply.text ==> r.warnings == said
                    &&& read != p.apply.text ==> r.warnings == said.push(
                        "write of "@ + p.section.path + " drifted from the in-memory result"@,
                    )
                    &&& after == recorded(store, p.key, read, None)
                },
            }
        }),
{
}

// ---------------------------------------------------------------------------------------------
// Several sections

/// A section of several that is the second for its file or changes nothing.
pub open spec fn is_at_fault(all: Seq<PreparedView>, i: int) -> bool {
    is_second(all, i) || (all.len() > 1 && all[i].file_op is None && all[i].apply.text
        == all[i].normalized)
}

/// A section before it is for the same file.
pub open spec fn is_second(all: Seq<PreparedView>, i: int) -> bool {
    exists|j: int| 0 <= j < i && (#[trigger] all[j]).key == all[i].key
}

proof fn lemma_batch_error(all: Seq<PreparedView>, count: nat)
    requires
        count <= all.len(),
    ensures
        match batch_error(all, count) {
            None => forall|i: int| 0 <= i < count ==> !(#[trigger] is_at_fault(all, i)),
            Some(message) => exists|i: int|
                {
                    &&& 0 <= i < count
                    &&& #[trigger] is_at_fault(all, i)
                    &&& forall|j: int| 0 <= j < i ==> !(#[trigger] is_at_fault(all, j))
                    &&& message == if is_second(all, i) {
                        "duplicate section for "@ + all[i].section.path
                    } else {
                        "Edits to "@ + all[i].section.path
                            + " resulted in no changes being made."@
                    }
                },
        },
    decreases count,
{
    if count > 0 {
        lemma_batch_error(all, (count - 1) as nat);
        let last = count - 1;
        if batch_error(all, (count - 1) as nat) is None && is_at_fault(all, last) {
            assert(batch_error(all, count) == Some(
                if is_second(all, last) {
                    "duplicate section for "@ + all[last].section.path
                } else {
                    "Edits to "@ + all[last].section.path + " resulted in no changes being made."@
                },
            ));
        }
    }
}

/// A patch is refused as a whole, before anything is written, where two of its sections are for one
/// file, or where one of several changes nothing. The message names the first such section.
pub proof fn law_sections_at_fault(all: Seq<PreparedView>)
    ensures
        match batch_error(all, all.len()) {
            None => forall|i: int| 0 <= i < all.len() ==> !(#[trigger] is_at_fault(all, i)),
            Some(message) => exists|i: int|
                {
                    &&& 0 <= i < all.len()
                    &&& #[trigger] is_at_fault(all, i)
                    &&& forall|j: int| 0 <= j < i ==> !(#[trigger] is_at_fault(all, j))
                    &&& message == if is_second(all, i) {
                        "duplicate section for "@ + all[i].section.path
                    } else {
                        "Edits to "@ + all[i].section.path
                            + " resulted in no changes being made."@
                    }
                },
        },
{
    lemma_batch_error(all, all.len());
}

/// A patch is planned section by section: each on its own file, with the store and the registers
/// that the sections before it left. It needs a path and a tag, and a body that can be read. The
/// first failure ends the plan, and leaves the store and the registers as they were then.
pub proof fn law_sections_are_planned_in_order(
    sections: Seq<SectionView>,
    files: Seq<FileView>,
    store: StoreView,
    clip: ClipboardView,
    enforce_seen: bool,
    section: SectionView,
    file: FileView,
)
    requires
        files.len() == sections.len(),
    ensures
        ({
            let before = plan_run(sections, files, store, clip, enforce_seen);
            let after = plan_run(
                sections.push(section),
                files.push(file),
                store,
                clip,
                enforce_seen,
            );
            match before.result {
                Err(_) => after == before,
                Ok(done) => if section.path.len() == 0 || section.file_hash is None {
                    after == (PlanRun {
                        result: Err::<Seq<PreparedView>, PlanErrorView>(
                            PlanErrorView::Patch(
                                "each hashline section needs `[PATH#TAG]` from the latest read/write/edit"@,
                            ),
                        ),
                        ..before
                    })
                } else {
                    match parsed(section.body, false) {
                        Err(message) => after == (PlanRun {
                            result: Err::<Seq<PreparedView>, PlanErrorView>(
                                PlanErrorView::Patch(message),
                            ),
                            ..before
                        }),
                        Ok(body) => match target_error(
                            section,
                            body.file_op,
                            file.exists,
                            file.is_protected,
                            file.dest_is_protected,
                        ) {
                            Some(message) => after == (PlanRun {
                                result: Err::<Seq<PreparedView>, PlanErrorView>(
                                    PlanErrorView::Patch(message),
                                ),
                                ..before
                            }),
                            None => match file.raw {
                                None => after == (PlanRun {
                                    result: Err::<Seq<PreparedView>, PlanErrorView>(
                                        PlanErrorView::Unreadable(sections.len()),
                                    ),
                                    ..before
                                }),
                                Some(raw) => {
                                    let one = prepared(
                                        section,
                                        body,
                                        file.key,
                                        file.dest_is_source,
                                        raw,
                                        before.store,
                                        before.clip,
                                        enforce_seen,
                                    );
                                    &&& after.store == one.store
                                    &&& after.clip == one.clip
                                    &&& match one.result {
                                        Ok(p) => after.result == Ok::<
                                            Seq<PreparedView>,
                                            PlanErrorView,
                                        >(done.push(p)),
                                        Err(message) => after.result == Err::<
                                            Seq<PreparedView>,
                                            PlanErrorView,
                                        >(PlanErrorView::Patch(message)),
                                    }
                                },
                            },
                        },
                    }
                },
            }
        }),
{
    reveal(plan_step);
    let more = sections.push(section);
    assert(more.drop_last() =~= sections);
    lemma_plan_needs_only_its_files(sections, files.push(file), files, store, clip, enforce_seen);
    lemma_plan_len(sections, files, store, clip, enforce_seen);
}

proof fn lemma_plan_needs_only_its_files(
    sections: Seq<SectionView>,
    a: Seq<FileView>,
    b: Seq<FileView>,
    store: StoreView,
    clip: ClipboardView,
    enforce_seen: bool,
)
    requires
        sections.len() <= a.len(),
        sections.len() <= b.len(),
        forall|i: int| 0 <= i < sections.len() ==> #[trigger] a[i] == b[i],
    ensures
        plan_run(sections, a, store, clip, enforce_seen) == plan_run(
            sections,
            b,
            store,
            clip,
            enforce_seen,
        ),
    decreases sections.len(),
{
    if sections.len() > 0 {
        lemma_plan_needs_only_its_files(sections.drop_last(), a, b, store, clip, enforce_seen);
        assert(a[sections.len() - 1] == b[sections.len() - 1]);
    }
}

proof fn lemma_plan_len(
    sections: Seq<SectionView>,
    files: Seq<FileView>,
    store: StoreView,
    clip: ClipboardView,
    enforce_seen: bool,
)
    ensures
        plan_run(sections, files, store, clip, enforce_seen).result matches Ok(done) ==> done.len()
            == sections.len(),
    decreases sections.len(),
{
    reveal(plan_step);
    if sections.len() > 0 {
        lemma_plan_len(sections.drop_last(), files, store, clip, enforce_seen);
    }
}

/// A plan is that of its sections, unless one of them is at fault beside the others.
pub proof fn law_plan_is_that_of_its_sections(
    sections: Seq<SectionView>,
    files: Seq<FileView>,
    store: StoreView,
    clip: ClipboardView,
    enforce_seen: bool,
)
    ensures
        ({
            let run = plan_run(sections, files, store, clip, enforce_seen);
            let plan = planned(sections, files, store, clip, enforce_seen);
            &&& plan.store == run.store
            &&& plan.clip == run.clip
            &&& match run.result {
                Err(e) => plan.result == Err::<Seq<PreparedView>, PlanErrorView>(e),
                Ok(all) => if exists|i: int|
                    0 <= i < all.len() && #[trigger] is_at_fault(all, i) {
                    plan.result is Err
                } else {
                    plan.result == Ok::<Seq<PreparedView>, PlanErrorView>(all)
                },
            }
        }),
{
    if let Ok(all) = plan_run(sections, files, store, clip, enforce_seen).result {
        lemma_batch_error(all, all.len());
    }
}

} // verus!
