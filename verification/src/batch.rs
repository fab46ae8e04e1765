//! A whole patch: every section is prepared before any file is touched.

use crate::apply::replacing;
use crate::clipboard::start_clipboard_batch;
use crate::format::{file_tag, hash_text, header_text, law_tag_shape, xxh32_digest};
use crate::language::{
    is_body_line, is_row, law_put_lines_parsed, law_section_read, lemma_plain_line, lemma_put_lines,
    marked, names_lines, patch_of, put_lines, with_lines_replaced,
};
use crate::normalize::{bom_of, line_ending_of, with_endings, without_bom};
use crate::parse::{parsed, patch_sections, BodyView};
use crate::patcher::{
    action_of, batch_error, check_batch, check_target, is_noop, law_fresh_patch_replaces_lines,
    parse_section, prepare, prepared, prepared_views, target_error, ActionView, PatchError,
    Prepared, PreparedView,
};
use crate::seen::unseen_lines;
use crate::session::recorded_text;
use crate::snapshots::{SnapshotStore, StoreView};
use crate::text::{all_of, class_has, is_white, join_lines, lines_of, CharClass};
use crate::types::{
    empty_clipboard, opt_text, section_views, Clipboard, ClipboardView, Patch, PatchSection,
    SectionView,
};
use vstd::prelude::*;
use vstd::utf8::encode_utf8;

verus! {

/// What the file system says of the file of a section.
#[derive(Debug)]
pub struct FileState {
    pub exists: bool,
    /// The file must not be deleted or moved.
    pub is_protected: bool,
    /// The destination of a move must not be written.
    pub dest_is_protected: bool,
    /// The destination of a move is the file itself.
    pub dest_is_source: bool,
    /// The canonical path.
    pub key: String,
    /// The contents, or nothing where they could not be read.
    pub raw: Option<String>,
}

#[verifier::ext_equal]
pub struct FileView {
    pub exists: bool,
    pub is_protected: bool,
    pub dest_is_protected: bool,
    pub dest_is_source: bool,
    pub key: Seq<char>,
    pub raw: Option<Seq<char>>,
}

impl View for FileState {
    type V = FileView;

    open spec fn view(&self) -> FileView {
        FileView {
            exists: self.exists,
            is_protected: self.is_protected,
            dest_is_protected: self.dest_is_protected,
            dest_is_source: self.dest_is_source,
            key: self.key@,
            raw: opt_text(self.raw),
        }
    }
}

pub open spec fn file_views(v: Seq<FileState>) -> Seq<FileView> {
    Seq::new(v.len(), |i: int| v[i]@)
}

/// Why a patch is not carried out.
#[derive(Debug)]
pub enum PlanError {
    Patch(PatchError),
    /// The file of the section with this index could not be read.
    Unreadable(usize),
}

#[verifier::ext_equal]
pub enum PlanErrorView {
    Patch(Seq<char>),
    Unreadable(nat),
}

impl View for PlanError {
    type V = PlanErrorView;

    open spec fn view(&self) -> PlanErrorView {
        match *self {
            PlanError::Patch(e) => PlanErrorView::Patch(e@),
            PlanError::Unreadable(index) => PlanErrorView::Unreadable(index as nat),
        }
    }
}

// ---------------------------------------------------------------------------------------------
// Model

/// Sections prepared one after the other, and the store and the registers afterwards.
#[verifier::ext_equal]
pub struct PlanRun {
    pub result: Result<Seq<PreparedView>, PlanErrorView>,
    pub store: StoreView,
    pub clip: ClipboardView,
}

/// The registers that a patch starts with: the named ones.
pub open spec fn batch_clipboard(clip: ClipboardView) -> ClipboardView {
    ClipboardView { named: clip.named, ..empty_clipboard() }
}

/// One more section after those that are `done`.
#[verifier::opaque]
pub open spec fn plan_step(
    section: SectionView,
    file: FileView,
    done: Seq<PreparedView>,
    store: StoreView,
    clip: ClipboardView,
    enforce_seen: bool,
) -> PlanRun {
    let stop = |e: PlanErrorView| PlanRun { result: Err(e), store, clip };
    if section.path.len() == 0 || section.file_hash is None {
        stop(
            PlanErrorView::Patch(
                "each hashline section needs `[PATH#TAG]` from the latest read/write/edit"@,
            ),
        )
    } else {
        match parsed(section.body, false) {
            Err(message) => stop(PlanErrorView::Patch(message)),
            Ok(body) => match target_error(
                section,
                body.file_op,
                file.exists,
                file.is_protected,
                file.dest_is_protected,
            ) {
                Some(message) => stop(PlanErrorView::Patch(message)),
                None => match file.raw {
                    None => stop(PlanErrorView::Unreadable(done.len())),
                    Some(raw) => {
                        let after = prepared(
                            section,
                            body,
                            file.key,
                            file.dest_is_source,
                            raw,
                            store,
                            clip,
                            enforce_seen,
                        );
                        PlanRun {
                            result: match after.result {
                                Ok(p) => Ok(done.push(p)),
                                Err(message) => Err(PlanErrorView::Patch(message)),
                            },
                            store: after.store,
                            clip: after.clip,
                        }
                    },
                },
            },
        }
    }
}

/// The sections of a patch, up to the first that fails.
pub open spec fn plan_run(
    sections: Seq<SectionView>,
    files: Seq<FileView>,
    store: StoreView,
    clip: ClipboardView,
    enforce_seen: bool,
) -> PlanRun
    decreases sections.len(),
{
    if sections.len() == 0 {
        PlanRun { result: Ok(seq![]), store, clip }
    } else {
        let n = sections.len() - 1;
        let front = plan_run(sections.drop_last(), files, store, clip, enforce_seen);
        match front.result {
            Err(_) => front,
            Ok(done) => plan_step(
                sections[n],
                files[n],
                done,
                front.store,
                front.clip,
                enforce_seen,
            ),
        }
    }
}

/// The sections of a patch, or what is wrong with one of them or with all taken together.
pub open spec fn planned(
    sections: Seq<SectionView>,
    files: Seq<FileView>,
    store: StoreView,
    clip: ClipboardView,
    enforce_seen: bool,
) -> PlanRun {
    let run = plan_run(sections, files, store, clip, enforce_seen);
    match run.result {
        Err(_) => run,
        Ok(all) => match batch_error(all, all.len()) {
            Some(message) => PlanRun { result: Err(PlanErrorView::Patch(message)), ..run },
            None => run,
        },
    }
}

// ---------------------------------------------------------------------------------------------
// Executable functions

/// Prepare a section on what the file system says of its file.
fn plan_section(
    section: &PatchSection,
    file: &FileState,
    index: usize,
    store: &mut SnapshotStore,
    clipboard: &mut Clipboard,
    enforce_seen_lines: bool,
) -> (res: Result<Prepared, PlanError>)
    ensures
        forall|done: Seq<PreparedView>|
            done.len() == index ==> ({
                let run = #[trigger] plan_step(
                    section@,
                    file@,
                    done,
                    old(store)@,
                    old(clipboard)@,
                    enforce_seen_lines,
                );
                &&& match res {
                    Ok(p) => run.result == Ok::<Seq<PreparedView>, PlanErrorView>(done.push(p@)),
                    Err(e) => run.result == Err::<Seq<PreparedView>, PlanErrorView>(e@),
                }
                &&& final(store)@ == run.store
                &&& final(clipboard)@ == run.clip
            }),
{
    proof {
        reveal(plan_step);
    }
    let body = match parse_section(section) {
        Ok(body) => body,
        Err(e) => {
            return Err(PlanError::Patch(e));
        },
    };
    match check_target(
        section,
        &body.file_op,
        file.exists,
        file.is_protected,
        file.dest_is_protected,
    ) {
        Ok(_) => {},
        Err(e) => {
            return Err(PlanError::Patch(e));
        },
    }
    match &file.raw {
        None => Err(PlanError::Unreadable(index)),
        Some(raw) => match prepare(
            section,
            body,
            file.key.as_str(),
            file.dest_is_source,
            raw.as_str(),
            store,
            clipboard,
            enforce_seen_lines,
        ) {
            Ok(p) => Ok(p),
            Err(e) => Err(PlanError::Patch(e)),
        },
    }
}

/// Prepare all sections of a patch. Nothing is to be written unless this succeeds; the registers
/// that come back are then to be committed once everything was written.
pub fn plan_patch(
    patch: &Patch,
    files: &[FileState],
    store: &mut SnapshotStore,
    clipboard: &Clipboard,
    enforce_seen_lines: bool,
) -> (res: Result<(Vec<Prepared>, Clipboard), PlanError>)
    requires
        files@.len() == patch.sections@.len(),
    ensures
        ({
            let run = planned(
                section_views(patch.sections@),
                file_views(files@),
                old(store)@,
                batch_clipboard(clipboard@),
                enforce_seen_lines,
            );
            &&& match res {
                Ok((all, batch)) => run.result == Ok::<Seq<PreparedView>, PlanErrorView>(
                    prepared_views(all@),
                ) && batch@ == run.clip,
                Err(e) => run.result == Err::<Seq<PreparedView>, PlanErrorView>(e@),
            }
            &&& final(store)@ == run.store
        }),
{
    let ghost sections = section_views(patch.sections@);
    let ghost states = file_views(files@);
    let ghost first = store@;
    let ghost clip = batch_clipboard(clipboard@);
    let mut batch = start_clipboard_batch(Some(clipboard));
    let mut all: Vec<Prepared> = Vec::new();
    let mut i: usize = 0;
    proof {
        assert(sections.take(0) =~= seq![]);
        assert(prepared_views(all@) =~= seq![]);
    }
    while i < patch.sections.len()
        invariant
            i <= patch.sections.len(),
            files@.len() == patch.sections@.len(),
            sections == section_views(patch.sections@),
            states == file_views(files@),
            first == old(store)@,
            clip == batch_clipboard(clipboard@),
            all@.len() == i,
            plan_run(sections.take(i as int), states, first, clip, enforce_seen_lines) == (PlanRun {
                result: Ok(prepared_views(all@)),
                store: store@,
                clip: batch@,
            }),
        decreases patch.sections.len() - i,
    {
        let ghost done = prepared_views(all@);
        proof {
            lemma_plan_step(sections, states, first, clip, enforce_seen_lines, i as int);
            assert(sections[i as int] == patch.sections@[i as int]@);
            assert(states[i as int] == files@[i as int]@);
        }
        match plan_section(
            &patch.sections[i],
            &files[i],
            i,
            store,
            &mut batch,
            enforce_seen_lines,
        ) {
            Ok(p) => {
                all.push(p);
                proof {
                    assert(prepared_views(all@) =~= done.push(p@));
                }
            },
            Err(e) => {
                proof {
                    law_error_stops_plan(
                        sections,
                        states,
                        first,
                        clip,
                        enforce_seen_lines,
                        i + 1,
                    );
                }
                return Err(e);
            },
        }
        i += 1;
    }
    proof {
        assert(sections.take(i as int) =~= sections);
    }
    match check_batch(all.as_slice()) {
        Ok(_) => Ok((all, batch)),
        Err(e) => Err(PlanError::Patch(e)),
    }
}

proof fn lemma_plan_step(
    sections: Seq<SectionView>,
    files: Seq<FileView>,
    store: StoreView,
    clip: ClipboardView,
    enforce_seen: bool,
    n: int,
)
    requires
        0 <= n < sections.len(),
    ensures
        ({
            let front = plan_run(sections.take(n), files, store, clip, enforce_seen);
            plan_run(sections.take(n + 1), files, store, clip, enforce_seen) == match front.result {
                Err(_) => front,
                Ok(done) => plan_step(
                    sections[n],
                    files[n],
                    done,
                    front.store,
                    front.clip,
                    enforce_seen,
                ),
            }
        }),
{
    assert(sections.take(n + 1).drop_last() =~= sections.take(n));
}

// ---------------------------------------------------------------------------------------------
// Laws

/// A section that is refused stops the whole patch: whatever sections follow the first `n`, an
/// error among these is the outcome.
pub proof fn law_error_stops_plan(
    sections: Seq<SectionView>,
    files: Seq<FileView>,
    store: StoreView,
    clip: ClipboardView,
    enforce_seen: bool,
    n: int,
)
    requires
        0 <= n <= sections.len(),
        plan_run(sections.take(n), files, store, clip, enforce_seen).result is Err,
    ensures
        planned(sections, files, store, clip, enforce_seen) == plan_run(
            sections.take(n),
            files,
            store,
            clip,
            enforce_seen,
        ),
    decreases sections.len() - n,
{
    if n == sections.len() {
        assert(sections.take(n) =~= sections);
    } else {
        lemma_plan_step(sections, files, store, clip, enforce_seen, n);
        law_error_stops_plan(sections, files, store, clip, enforce_seen, n + 1);
    }
}

proof fn lemma_plan_follows_sections(
    sections: Seq<SectionView>,
    files: Seq<FileView>,
    store: StoreView,
    clip: ClipboardView,
    enforce_seen: bool,
)
    ensures
        plan_run(sections, files, store, clip, enforce_seen).result matches Ok(all) ==> all.len()
            == sections.len() && forall|i: int|
            #![trigger all[i]]
            0 <= i < all.len() ==> all[i].section == sections[i] && all[i].key == files[i].key
                && files[i].exists && (all[i].file_op is Some ==> !files[i].is_protected),
    decreases sections.len(),
{
    if sections.len() > 0 {
        reveal(plan_step);
        let less = sections.drop_last();
        lemma_plan_follows_sections(less, files, store, clip, enforce_seen);
        if let Ok(all) = plan_run(sections, files, store, clip, enforce_seen).result {
            let done = plan_run(less, files, store, clip, enforce_seen).result->Ok_0;
            assert forall|i: int|
                #![trigger all[i]]
                0 <= i < all.len() implies all[i].section == sections[i] && all[i].key
                == files[i].key && files[i].exists && (all[i].file_op is Some
                ==> !files[i].is_protected) by {
                if i < done.len() {
                    assert(all[i] == done[i]);
                }
            }
        }
    }
}

/// A patch that can be carried out has each section prepared on its own file, in order. The files
/// exist, no two are the same, none that is protected is deleted or moved, and where there are
/// several, each is changed.
pub proof fn law_planned_files(
    sections: Seq<SectionView>,
    files: Seq<FileView>,
    store: StoreView,
    clip: ClipboardView,
    enforce_seen: bool,
)
    ensures
        planned(sections, files, store, clip, enforce_seen).result matches Ok(all) ==> {
            &&& all.len() == sections.len()
            &&& forall|i: int|
                #![trigger all[i]]
                0 <= i < all.len() ==> all[i].section == sections[i] && all[i].key == files[i].key
                    && files[i].exists && (all[i].file_op is Some ==> !files[i].is_protected)
            &&& forall|i: int, j: int|
                0 <= i < j < all.len() ==> (#[trigger] all[i]).key != (#[trigger] all[j]).key
            &&& all.len() > 1 ==> forall|i: int| 0 <= i < all.len() ==> !is_noop(#[trigger] all[i])
        },
{
    lemma_plan_follows_sections(sections, files, store, clip, enforce_seen);
    if let Ok(all) = planned(sections, files, store, clip, enforce_seen).result {
        lemma_no_batch_error(all, all.len());
    }
}

proof fn lemma_no_batch_error(all: Seq<PreparedView>, count: nat)
    requires
        count <= all.len(),
        batch_error(all, count) is None,
    ensures
        forall|i: int, j: int|
            0 <= i < j < count ==> (#[trigger] all[i]).key != (#[trigger] all[j]).key,
        all.len() > 1 ==> forall|i: int| 0 <= i < count ==> !is_noop(#[trigger] all[i]),
    decreases count,
{
    if count > 0 {
        lemma_no_batch_error(all, (count - 1) as nat);
    }
}

/// A patch of one section is planned where that section can be prepared.
proof fn lemma_one_section_planned(
    section: SectionView,
    file: FileView,
    raw: Seq<char>,
    store: StoreView,
    clip: ClipboardView,
    enforce_seen: bool,
)
    requires
        section.path.len() > 0,
        section.file_hash is Some,
        file.exists,
        file.raw == Some(raw),
        parsed(section.body, false) matches Ok(body) && body.file_op is None && prepared(
            section,
            body,
            file.key,
            file.dest_is_source,
            raw,
            store,
            clip,
            enforce_seen,
        ).result is Ok,
    ensures
        ({
            let body = parsed(section.body, false)->Ok_0;
            let p = prepared(
                section,
                body,
                file.key,
                file.dest_is_source,
                raw,
                store,
                clip,
                enforce_seen,
            ).result->Ok_0;
            planned(seq![section], seq![file], store, clip, enforce_seen).result == Ok::<
                Seq<PreparedView>,
                PlanErrorView,
            >(seq![p])
        }),
{
    let sections = seq![section];
    assert(sections.drop_last() =~= seq![]);
    reveal_with_fuel(plan_run, 2);
    reveal(plan_step);
    let p = plan_run(sections, seq![file], store, clip, enforce_seen).result->Ok_0[0];
    assert(Seq::<PreparedView>::empty().push(p) =~= seq![p]);
    reveal_with_fuel(batch_error, 2);
}

/// The lines of a patch under a header: an op and its marked rows.
proof fn lemma_op_lines(header: Seq<char>, rows: Seq<Seq<char>>)
    requires
        is_row(header),
        header.len() > 0,
        header[0] == 'P',
        forall|i: int| 0 <= i < rows.len() ==> is_row(#[trigger] rows[i]),
    ensures
        ({
            let lines = seq![header] + marked(rows);
            &&& lines.last().len() > 0
            &&& forall|i: int| 0 <= i < lines.len() ==> is_body_line(#[trigger] lines[i])
        }),
{
    let lines = seq![header] + marked(rows);
    assert forall|i: int| 0 <= i < lines.len() implies is_body_line(#[trigger] lines[i]) by {
        if i == 0 {
            lemma_plain_line(header);
        } else {
            let row = rows[i - 1];
            assert(is_row(row));
            assert(lines[i] == seq!['+'] + row);
            assert forall|j: int| 0 <= j < lines[i].len() implies class_has(
                CharClass::InLine,
                #[trigger] lines[i][j],
            ) by {
                if j > 0 {
                    assert(lines[i][j] == row[j - 1]);
                }
            }
            lemma_plain_line(lines[i]);
        }
    }
    if rows.len() > 0 {
        assert(lines.last() == seq!['+'] + rows.last());
    }
}

/// From the text of a patch to what is written: a patch `[PATH#TAG]`, `PUT A.=B:` and rows, with
/// the tag of the file as it is, is read as one section, and its plan writes the file with the
/// lines A to B replaced, in the line endings of the file and after its byte order mark.
pub proof fn law_fresh_patch_is_carried_out(
    path: Seq<char>,
    raw: Seq<char>,
    a: usize,
    b: usize,
    rows: Seq<Seq<char>>,
    file: FileView,
    store: StoreView,
    clip: ClipboardView,
    enforce_seen: bool,
)
    requires
        path.len() > 0,
        all_of(path, CharClass::InLine),
        !is_white(path[0]),
        !is_white(path.last()),
        file.exists,
        file.raw == Some(raw),
        names_lines(recorded_text(raw), a, b),
        rows.len() > 0,
        forall|i: int| 0 <= i < rows.len() ==> is_row(#[trigger] rows[i]),
        enforce_seen ==> unseen_lines(
            store,
            file.key,
            recorded_text(raw),
            replacing(a, b, rows, 1, 0),
        ).len() == 0,
    ensures
        ({
            let text = recorded_text(raw);
            let edited = join_lines(with_lines_replaced(lines_of(text), a, b, rows));
            let header = header_text(path, file_tag(text));
            let sections = patch_sections(
                join_lines(seq![header, put_lines(a, b)] + marked(rows)),
            );
            planned(sections, seq![file], store, clip, enforce_seen).result matches Ok(all)
                && all.len() == 1 && all[0].key == file.key && action_of(all[0]) == if edited
                == text {
                ActionView::Keep
            } else {
                ActionView::Write {
                    text: bom_of(raw) + with_endings(edited, line_ending_of(without_bom(raw))),
                }
            }
        }),
{
    let text = recorded_text(raw);
    let op = put_lines(a, b);
    let section = SectionView {
        path,
        file_hash: Some(file_tag(text)),
        body: patch_of(op, rows),
    };
    let header = header_text(path, file_tag(text));
    assert(patch_sections(join_lines(seq![header, op] + marked(rows))) == seq![section]) by {
        lemma_put_patch_read(path, text, a, b, rows);
    }
    law_put_lines_parsed(a, b, rows);
    let body = parsed(section.body, false)->Ok_0;
    law_fresh_patch_replaces_lines(path, file.key, raw, a, b, rows, store, clip, enforce_seen);
    lemma_dest_of_no_move(section, body, file, raw, store, clip, enforce_seen);
    lemma_one_section_planned(section, file, raw, store, clip, enforce_seen);
}

/// A patch of a header and a `PUT` of lines is read as that section.
proof fn lemma_put_patch_read(
    path: Seq<char>,
    text: Seq<char>,
    a: usize,
    b: usize,
    rows: Seq<Seq<char>>,
)
    requires
        path.len() > 0,
        all_of(path, CharClass::InLine),
        !is_white(path[0]),
        !is_white(path.last()),
        1 <= a,
        1 <= b,
        forall|i: int| 0 <= i < rows.len() ==> is_row(#[trigger] rows[i]),
    ensures
        patch_sections(
            join_lines(
                seq![header_text(path, file_tag(text)), put_lines(a, b)] + marked(rows),
            ),
        ) == seq![
            SectionView {
                path,
                file_hash: Some(file_tag(text)),
                body: patch_of(put_lines(a, b), rows),
            },
        ],
{
    let digest = xxh32_digest(encode_utf8(hash_text(text)), 0);
    let header = header_text(path, file_tag(text));
    let op = put_lines(a, b);
    let lines = seq![op] + marked(rows);
    lemma_put_lines(a, b);
    reveal_strlit("PUT ");
    assert(op[0] == 'P');
    lemma_op_lines(op, rows);
    law_tag_shape(digest);
    law_section_read(path, file_tag(text), lines);
    assert(seq![header] + lines =~= seq![header, op] + marked(rows));
}

/// Whether the destination of a move is the file itself does not matter where nothing is moved.
proof fn lemma_dest_of_no_move(
    section: SectionView,
    body: BodyView,
    file: FileView,
    raw: Seq<char>,
    store: StoreView,
    clip: ClipboardView,
    enforce_seen: bool,
)
    requires
        body.file_op is None,
    ensures
        prepared(section, body, file.key, file.dest_is_source, raw, store, clip, enforce_seen)
            == prepared(section, body, file.key, false, raw, store, clip, enforce_seen),
{
}

} // verus!
