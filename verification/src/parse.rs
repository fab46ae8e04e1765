//! Line-oriented hashline parser.

use crate::format::{header_of, header_view, parse_hashline_header};
use crate::rows::{
    minus_resolved, prefixes_stripped, resolve_minus_rows, row_texts, row_views,
    strip_bare_prefixes_if_uniform, texts_of, PayloadRow, RowView,
};
use crate::scan::{
    cut_op, debug_quoted, parse_cut_target, parse_put_target, put_op, quoted, range_error,
    validate_range, Op, OpView, ParseError, Target,
};
use crate::text::{
    at_line, blank, chars_of, first_is, is_blank, join_lines, join_text, line_message, line_spans,
    lines_of, part, same_as, same_text, skip, spans_of, starts_with, starts_with_char, string_of,
    strip_prefix, strs, trim, trim_end, trim_start, trimmed, trimmed_end, trimmed_start, CharClass,
};
use crate::types::{
    copy_edits, copy_strings, deletes, edit_views, inserts, opt_file_op, opt_text, push_deletes,
    push_inserts, section_views, Anchor, BlockMode, Cursor, Edit, EditView, FileOp, FileOpView,
    ParsedRange, PasteTarget, Patch, PatchSection, SectionView,
};
use vstd::prelude::*;

verus! {

// ---------------------------------------------------------------------------------------------
// Model

/// An op whose body rows are still being collected. Blank rows wait until another row follows.
#[verifier::ext_equal]
pub struct PendingView {
    pub op: OpView,
    pub line_num: nat,
    pub payloads: Seq<RowView>,
    pub deferred: Seq<RowView>,
}

/// What has been read of a section body.
#[verifier::ext_equal]
pub struct BodyView {
    pub edits: Seq<EditView>,
    pub warnings: Seq<Seq<char>>,
    pub pending: Option<PendingView>,
    pub file_op: Option<FileOpView>,
}

pub open spec fn empty_body() -> BodyView {
    BodyView { edits: seq![], warnings: seq![], pending: None, file_op: None }
}

impl BodyView {
    /// A warning is given once.
    pub open spec fn warn(self, message: Seq<char>) -> BodyView {
        if self.warnings.contains(message) {
            self
        } else {
            BodyView { warnings: self.warnings.push(message), ..self }
        }
    }

    pub open spec fn with_edits(self, more: Seq<EditView>) -> BodyView {
        BodyView { edits: self.edits + more, ..self }
    }
}

/// The gap that a target inserts into.
pub open spec fn gap_cursor(target: Target) -> Cursor {
    match target {
        Target::InsertBefore { anchor } => Cursor::BeforeAnchor { anchor },
        Target::InsertAfter { anchor } => Cursor::AfterAnchor { anchor },
        Target::Bof => Cursor::Bof,
        _ => Cursor::Eof,
    }
}

pub open spec fn block_edit(
    anchor: Anchor,
    payloads: Seq<Seq<char>>,
    mode: BlockMode,
    register: Option<Seq<char>>,
    line_num: nat,
    index: nat,
) -> Seq<EditView> {
    seq![EditView::Block { anchor, payloads, mode, register, line_num, index }]
}

pub open spec fn paste_edit(
    at: PasteTarget,
    register: Option<Seq<char>>,
    line_num: nat,
    index: nat,
) -> Seq<EditView> {
    seq![EditView::Paste { at, register, line_num, index, block_start: None }]
}

/// What an op with body `texts` adds to what has been read, or what is wrong with it.
pub open spec fn op_done(body: BodyView, op: OpView, texts: Seq<Seq<char>>, line_num: nat) -> Result<
    BodyView,
    Seq<char>,
> {
    let n = body.edits.len();
    let colonless = Err(
        at_line(line_num)
            + "colonless span `PUT` needs a register (`PUT N.=M @name`) or a `:` body"@,
    );
    let bodyless = Err(at_line(line_num) + "`PUT` insert promises body rows"@);
    let as_deletion = "empty `PUT` body as deletion; use `CUT` to delete lines"@;
    match op.target {
        Target::Cut { range } => match range_error(range, line_num) {
            Some(message) => Err(message),
            None => Ok(
                body.with_edits(
                    seq![
                        EditView::Cut { range, register: op.register, line_num, index: n },
                    ] + deletes(range.start.line, range.end.line, line_num, n + 1),
                ),
            ),
        },
        Target::CutBlock { anchor } => Ok(
            body.with_edits(
                block_edit(anchor, seq![], BlockMode::Cut, op.register, line_num, n),
            ),
        ),
        Target::Replace { range } => match range_error(range, line_num) {
            Some(message) => Err(message),
            None => if op.register is Some {
                Ok(
                    body.with_edits(
                        paste_edit(PasteTarget::Span { range }, op.register, line_num, n),
                    ),
                )
            } else if texts.len() == 0 {
                if op.had_colon {
                    Ok(
                        body.with_edits(
                            deletes(range.start.line, range.end.line, line_num, n),
                        ).warn(as_deletion),
                    )
                } else {
                    colonless
                }
            } else {
                Ok(
                    body.with_edits(
                        inserts(
                            texts,
                            Cursor::BeforeAnchor { anchor: range.start },
                            line_num,
                            n,
                            true,
                            None,
                        ) + deletes(range.start.line, range.end.line, line_num, n + texts.len()),
                    ),
                )
            },
        },
        Target::Block { anchor } => if op.register is Some {
            Ok(
                body.with_edits(
                    block_edit(anchor, seq![], BlockMode::Replace, op.register, line_num, n),
                ),
            )
        } else if texts.len() == 0 {
            if op.had_colon {
                Ok(
                    body.with_edits(
                        block_edit(anchor, seq![], BlockMode::Replace, None, line_num, n),
                    ).warn(as_deletion),
                )
            } else {
                colonless
            }
        } else {
            Ok(
                body.with_edits(block_edit(anchor, texts, BlockMode::Replace, None, line_num, n)),
            )
        },
        Target::InsertAfterBlock { anchor } => if op.register is Some || (!op.had_colon
            && texts.len() == 0) {
            Ok(
                body.with_edits(
                    block_edit(anchor, seq![], BlockMode::PasteAfter, op.register, line_num, n),
                ),
            )
        } else if texts.len() == 0 {
            bodyless
        } else {
            Ok(
                body.with_edits(
                    block_edit(anchor, texts, BlockMode::InsertAfter, None, line_num, n),
                ),
            )
        },
        _ => {
            let cursor = gap_cursor(op.target);
            if op.register is Some || (!op.had_colon && texts.len() == 0) {
                Ok(
                    body.with_edits(
                        paste_edit(PasteTarget::Gap { cursor }, op.register, line_num, n),
                    ),
                )
            } else if texts.len() == 0 {
                bodyless
            } else {
                Ok(body.with_edits(inserts(texts, cursor, line_num, n, false, None)))
            }
        },
    }
}

/// The pending op done with the rows collected so far.
pub open spec fn flushed(body: BodyView) -> Result<BodyView, Seq<char>> {
    match body.pending {
        None => Ok(body),
        Some(p) => match minus_resolved(p.payloads) {
            Err(message) => Err(message),
            Ok(rows) => op_done(
                BodyView { pending: None, ..body },
                p.op,
                row_texts(prefixes_stripped(rows)),
                p.line_num,
            ),
        },
    }
}

pub open spec fn is_cut(target: Target) -> bool {
    target is Cut || target is CutBlock
}

/// After the header of an op on lines.
pub open spec fn op_fed(body: BodyView, op: OpView, line_num: nat) -> Result<BodyView, Seq<char>> {
    let warned = if op.had_colon && is_cut(op.target) {
        body.warn("`CUT` colon is ignored"@)
    } else {
        body
    };
    if op.had_colon && op.register is Some {
        Err(at_line(line_num) + "register `PUT` takes no `:` body"@)
    } else {
        match flushed(warned) {
            Err(message) => Err(message),
            Ok(done) => Ok(
                BodyView {
                    pending: Some(
                        PendingView { op, line_num, payloads: seq![], deferred: seq![] },
                    ),
                    ..done
                },
            ),
        }
    }
}

/// After `REM` or `MV`.
pub open spec fn file_op_fed(body: BodyView, op: FileOpView, line_num: nat) -> Result<
    BodyView,
    Seq<char>,
> {
    match flushed(body) {
        Err(message) => Err(message),
        Ok(done) => if done.file_op is Some {
            Err(at_line(line_num) + "only one file-level op (`REM` or `MV`) per section"@)
        } else if op is Rem && done.edits.len() > 0 {
            Err(at_line(line_num) + rem_takes_no_body())
        } else {
            Ok(BodyView { file_op: Some(op), ..done })
        },
    }
}

pub open spec fn rem_takes_no_body() -> Seq<char> {
    "`REM` deletes the whole file and cannot be combined with line ops"@
}

/// Why an op takes no body rows, if it takes none.
pub open spec fn bodyless(op: OpView) -> Option<Seq<char>> {
    if is_cut(op.target) {
        Some("`CUT` takes no body rows"@)
    } else if op.register is Some {
        Some("register `PUT` takes no `:` body"@)
    } else if !op.had_colon {
        Some("this op takes no body rows"@)
    } else {
        None
    }
}

pub open spec fn is_header_text(text: Seq<char>) -> bool {
    let t = trimmed_start(text, CharClass::White);
    "PUT "@.is_prefix_of(t) || "CUT "@.is_prefix_of(t) || t == "REM"@ || "MV "@.is_prefix_of(t)
}

/// After a row marked with `+`.
pub open spec fn literal_fed(body: BodyView, text: Seq<char>, line_num: nat) -> Result<
    BodyView,
    Seq<char>,
> {
    match body.pending {
        None => if body.file_op is Some {
            Err(at_line(line_num) + "file-level op takes no body rows"@)
        } else {
            Err(
                at_line(line_num) + "payload line has no preceding hunk header. Got "@
                    + debug_quoted(seq!['+'] + text) + "."@,
            )
        },
        Some(p) => match bodyless(p.op) {
            Some(why) => Err(at_line(line_num) + why),
            None => {
                let warned = if is_header_text(text) {
                    body.warn(
                        at_line(line_num)
                            + "body row looks like an op header and will be inserted as text"@,
                    )
                } else {
                    body
                };
                let row = RowView { text, line_num, bare: false, minus: false };
                Ok(
                    BodyView {
                        pending: Some(
                            PendingView {
                                payloads: (p.payloads + p.deferred).push(row),
                                deferred: seq![],
                                ..p
                            },
                        ),
                        ..warned
                    },
                )
            },
        },
    }
}

/// After a row that nothing marks.
pub open spec fn raw_fed(body: BodyView, text: Seq<char>, line_num: nat) -> Result<
    BodyView,
    Seq<char>,
> {
    match body.pending {
        None => if is_blank(text) {
            Ok(body)
        } else {
            Err(
                at_line(line_num)
                    + "payload line has no preceding hunk header. Use `PUT N.=M:`, `CUT N.=M`, or `PUT <N:`/`PUT >N:` above the body. Got "@
                    + debug_quoted(text) + "."@,
            )
        },
        Some(p) => if is_blank(text) {
            if bodyless(p.op) is None && p.payloads.len() > 0 {
                let row = RowView { text, line_num, bare: true, minus: false };
                Ok(
                    BodyView {
                        pending: Some(PendingView { deferred: p.deferred.push(row), ..p }),
                        ..body
                    },
                )
            } else {
                Ok(body)
            }
        } else {
            match bodyless(p.op) {
                Some(why) => Err(at_line(line_num) + why),
                None => {
                    let minus = starts_with_char(trimmed_start(text, CharClass::White), '-');
                    let warned = if p.deferred.len() > 0 || !minus {
                        body.warn("Auto-prefixed bare body row"@)
                    } else {
                        body
                    };
                    let row = RowView { text, line_num, bare: true, minus };
                    Ok(
                        BodyView {
                            pending: Some(
                                PendingView {
                                    payloads: (p.payloads + p.deferred).push(row),
                                    deferred: seq![],
                                    ..p
                                },
                            ),
                            ..warned
                        },
                    )
                },
            }
        },
    }
}

/// A path, without one pair of quotes around it.
pub open spec fn unquoted_path(path: Seq<char>) -> Seq<char> {
    let t = trimmed(path);
    if t.len() >= 2 && (t[0] == '"' || t[0] == '\'') && t[0] == t.last() {
        t.subrange(1, t.len() - 1)
    } else {
        t
    }
}

/// After one line of a section body.
pub open spec fn line_fed(body: BodyView, line: Seq<char>, line_num: nat) -> Result<
    BodyView,
    Seq<char>,
> {
    if line == "*** Begin Patch"@ {
        Ok(body)
    } else if line == "*** End Patch"@ || line == "*** Abort"@ || header_of(line) is Some {
        flushed(body)
    } else if line.len() == 0 {
        raw_fed(body, line, line_num)
    } else if line[0] == '+' {
        literal_fed(body, line.skip(1), line_num)
    } else if "PUT "@.is_prefix_of(line) {
        match put_op(line.skip("PUT "@.len() as int)) {
            Err(message) => Err(message),
            Ok(op) => op_fed(body, op, line_num),
        }
    } else if "CUT "@.is_prefix_of(line) {
        match cut_op(line.skip("CUT "@.len() as int)) {
            Err(message) => Err(message),
            Ok(op) => op_fed(body, op, line_num),
        }
    } else if trimmed(line) == "REM"@ {
        file_op_fed(body, FileOpView::Rem, line_num)
    } else if "MV "@.is_prefix_of(line) {
        file_op_fed(
            body,
            FileOpView::Move { dest: unquoted_path(line.skip("MV "@.len() as int)) },
            line_num,
        )
    } else {
        raw_fed(body, line, line_num)
    }
}

/// After all of `lines`, which are numbered from one.
pub open spec fn lines_fed(lines: Seq<Seq<char>>) -> Result<BodyView, Seq<char>>
    decreases lines.len(),
{
    if lines.len() == 0 {
        Ok(empty_body())
    } else {
        match lines_fed(lines.drop_last()) {
            Err(message) => Err(message),
            Ok(body) => line_fed(body, lines.last(), lines.len()),
        }
    }
}

/// Whether a pending op is done where the input breaks off.
pub open spec fn is_complete(p: PendingView) -> bool {
    ||| is_cut(p.op.target)
    ||| p.op.register is Some
    ||| !p.op.had_colon && !(p.op.target is Replace) && !(p.op.target is Block)
    ||| p.payloads.len() > 0
}

/// At the end of the input. While the input is still streaming in, an op that may yet get body
/// rows is left out.
pub open spec fn body_finished(body: BodyView, streaming: bool) -> Result<BodyView, Seq<char>> {
    let unfinished = match body.pending {
        Some(p) => streaming && !is_complete(p),
        None => false,
    };
    let done = if unfinished {
        Ok(BodyView { pending: None, ..body })
    } else {
        flushed(body)
    };
    match done {
        Err(message) => Err(message),
        Ok(end) => if end.file_op == Some(FileOpView::Rem) && end.edits.len() > 0 {
            Err(rem_takes_no_body())
        } else {
            Ok(end)
        },
    }
}

/// Lines without CR at their ends; a final line feed ends the last line.
pub open spec fn input_lines(text: Seq<char>) -> Seq<Seq<char>> {
    let lines = lines_of(text);
    let kept = Seq::new(lines.len(), |i: int| trimmed_end(lines[i], CharClass::Return));
    if kept.len() > 0 && kept.last().len() == 0 {
        kept.drop_last()
    } else {
        kept
    }
}

/// A section body.
pub open spec fn parsed(diff: Seq<char>, streaming: bool) -> Result<BodyView, Seq<char>> {
    match lines_fed(input_lines(diff)) {
        Err(message) => Err(message),
        Ok(body) => body_finished(body, streaming),
    }
}

/// What has been read of a patch.
#[verifier::ext_equal]
pub struct InputView {
    pub sections: Seq<SectionView>,
    /// Path and tag of the section that is being read.
    pub current: Option<(Seq<char>, Option<Seq<char>>)>,
    pub body: Seq<Seq<char>>,
    pub aborted: bool,
}

pub open spec fn empty_input() -> InputView {
    InputView { sections: seq![], current: None, body: seq![], aborted: false }
}

/// The current section ends. One with neither body nor tag is left out.
pub open spec fn section_ended(input: InputView) -> InputView {
    match input.current {
        None => input,
        Some((path, tag)) => {
            let body = join_lines(input.body);
            InputView {
                sections: if body.len() > 0 || tag is Some {
                    input.sections.push(SectionView { path, file_hash: tag, body })
                } else {
                    input.sections
                },
                current: None,
                body: seq![],
                ..input
            }
        },
    }
}

/// After one line of a patch. Lines before the first header make up a section without path and tag.
pub open spec fn input_fed(input: InputView, line: Seq<char>) -> InputView {
    if input.aborted || line == "*** Begin Patch"@ || line == "*** End Patch"@ {
        input
    } else if line == "*** Abort"@ {
        InputView { aborted: true, ..section_ended(input) }
    } else {
        match header_of(line) {
            Some(header) => InputView { current: Some(header), ..section_ended(input) },
            None => InputView {
                current: match input.current {
                    Some(header) => Some(header),
                    None => Some((seq![], None)),
                },
                body: input.body.push(line),
                ..input
            },
        }
    }
}

pub open spec fn input_run(lines: Seq<Seq<char>>) -> InputView
    decreases lines.len(),
{
    if lines.len() == 0 {
        empty_input()
    } else {
        input_fed(input_run(lines.drop_last()), lines.last())
    }
}

/// The sections of a patch.
pub open spec fn patch_sections(input: Seq<char>) -> Seq<SectionView> {
    section_ended(
        input_run(input_lines(trimmed_start(input, CharClass::LineBreak))),
    ).sections
}

// ---------------------------------------------------------------------------------------------
// Executable functions

struct Pending {
    op: Op,
    line_num: usize,
    payloads: Vec<PayloadRow>,
    deferred_blanks: Vec<PayloadRow>,
}

impl View for Pending {
    type V = PendingView;

    closed spec fn view(&self) -> PendingView {
        PendingView {
            op: self.op@,
            line_num: self.line_num as nat,
            payloads: row_views(self.payloads@),
            deferred: row_views(self.deferred_blanks@),
        }
    }
}

struct Executor {
    edits: Vec<Edit>,
    warnings: Vec<String>,
    pending: Option<Pending>,
    file_op: Option<FileOp>,
}

spec fn pending_view(p: Option<Pending>) -> Option<PendingView> {
    match p {
        Some(p) => Some(p@),
        None => None,
    }
}

impl View for Executor {
    type V = BodyView;

    closed spec fn view(&self) -> BodyView {
        BodyView {
            edits: edit_views(self.edits@),
            warnings: strs(self.warnings@),
            pending: pending_view(self.pending),
            file_op: opt_file_op(self.file_op),
        }
    }
}

/// Whether a result agrees with an outcome of the model.
spec fn agrees(res: Result<(), ParseError>, now: BodyView, expected: Result<BodyView, Seq<char>>) -> bool {
    match res {
        Ok(_) => expected == Ok::<BodyView, Seq<char>>(now),
        Err(e) => expected == Err::<BodyView, Seq<char>>(e@),
    }
}

fn error_at(line_num: usize, what: &str) -> (e: ParseError)
    ensures
        e@ == at_line(line_num as nat) + what@,
{
    let mut message = line_message(line_num);
    message.append(what);
    ParseError::Message(message)
}

fn cursor_of(target: Target) -> (c: Cursor)
    ensures
        c == gap_cursor(target),
{
    match target {
        Target::InsertBefore { anchor } => Cursor::BeforeAnchor { anchor },
        Target::InsertAfter { anchor } => Cursor::AfterAnchor { anchor },
        Target::Bof => Cursor::Bof,
        _ => Cursor::Eof,
    }
}

fn cuts(target: Target) -> (yes: bool)
    ensures
        yes == is_cut(target),
{
    match target {
        Target::Cut { .. } => true,
        Target::CutBlock { .. } => true,
        _ => false,
    }
}

fn is_hunk_header_text(text: &str) -> (yes: bool)
    ensures
        yes == is_header_text(text@),
{
    let chars = chars_of(text);
    let t = trim_start(chars.as_slice(), CharClass::White);
    starts_with(t, "PUT ") || starts_with(t, "CUT ") || same_as(t, "REM") || starts_with(t, "MV ")
}

fn unquote_path(path: &[char]) -> (out: String)
    ensures
        out@ == unquoted_path(path@),
{
    let t = trim(path);
    if t.len() >= 2 && (t[0] == '"' || t[0] == '\'') && t[0] == t[t.len() - 1] {
        string_of(part(t, 1, t.len() - 1))
    } else {
        string_of(t)
    }
}

fn bodyless_message(op: &Op) -> (r: Option<&'static str>)
    ensures
        match r {
            Some(why) => bodyless(op@) == Some(why@),
            None => bodyless(op@) is None,
        },
{
    if cuts(op.target) {
        Some("`CUT` takes no body rows")
    } else if op.register.is_some() {
        Some("register `PUT` takes no `:` body")
    } else if !op.had_colon {
        Some("this op takes no body rows")
    } else {
        None
    }
}

impl Executor {
    fn new() -> (x: Self)
        ensures
            x@ == empty_body(),
    {
        let x = Executor {
            edits: Vec::new(),
            warnings: Vec::new(),
            pending: None,
            file_op: None,
        };
        proof {
            assert(x@ =~= empty_body());
        }
        x
    }

    fn warn(&mut self, message: &str)
        ensures
            final(self)@ == old(self)@.warn(message@),
            final(self).pending == old(self).pending,
            final(self).file_op == old(self).file_op,
            final(self).edits == old(self).edits,
    {
        let mut i: usize = 0;
        while i < self.warnings.len()
            invariant
                i <= self.warnings.len(),
                *self == *old(self),
                forall|j: int| 0 <= j < i ==> (#[trigger] self.warnings@[j])@ != message@,
            decreases self.warnings.len() - i,
        {
            if same_text(self.warnings[i].as_str(), message) {
                proof {
                    assert(self@.warnings[i as int] == message@);
                }
                return;
            }
            i += 1;
        }
        proof {
            assert(!self@.warnings.contains(message@)) by {
                if self@.warnings.contains(message@) {
                    let j = choose|j: int|
                        0 <= j < self@.warnings.len() && self@.warnings[j] == message@;
                    assert(self.warnings@[j]@ == message@);
                }
            }
        }
        self.warnings.push(message.to_owned());
        proof {
            assert(self@.warnings =~= old(self)@.warnings.push(message@));
        }
    }

    fn push_one(&mut self, edit: Edit)
        ensures
            final(self)@ == old(self)@.with_edits(seq![edit@]),
            final(self).pending == old(self).pending,
            final(self).edits@.len() == old(self).edits@.len() + 1,
    {
        self.edits.push(edit);
        proof {
            assert(self@ =~= old(self)@.with_edits(seq![edit@]));
        }
    }

    fn push_delete_range(&mut self, range: ParsedRange, line_num: usize)
        ensures
            final(self)@ == old(self)@.with_edits(
                deletes(
                    range.start.line,
                    range.end.line,
                    line_num as nat,
                    old(self)@.edits.len(),
                ),
            ),
    {
        let index = self.edits.len();
        push_deletes(&mut self.edits, range.start.line, range.end.line, line_num, index);
    }

    fn push_cut(&mut self, range: ParsedRange, line_num: usize, register: Option<String>)
        ensures
            final(self)@ == old(self)@.with_edits(
                seq![
                    EditView::Cut {
                        range,
                        register: opt_text(register),
                        line_num: line_num as nat,
                        index: old(self)@.edits.len(),
                    },
                ] + deletes(
                    range.start.line,
                    range.end.line,
                    line_num as nat,
                    old(self)@.edits.len() + 1,
                ),
            ),
    {
        let index = self.edits.len();
        let cut = Edit::Cut { range, register, line_num, index };
        self.push_one(cut);
        self.push_delete_range(range, line_num);
        proof {
            let b = deletes(
                range.start.line,
                range.end.line,
                line_num as nat,
                old(self)@.edits.len() + 1,
            );
            assert(old(self)@.edits + seq![cut@] + b =~= old(self)@.edits + (seq![cut@] + b));
        }
    }

    fn push_paste(&mut self, at: PasteTarget, register: Option<String>, line_num: usize)
        ensures
            final(self)@ == old(self)@.with_edits(
                paste_edit(at, opt_text(register), line_num as nat, old(self)@.edits.len()),
            ),
    {
        let index = self.edits.len();
        self.push_one(Edit::Paste { at, register, line_num, index, block_start: None });
    }

    fn push_block(
        &mut self,
        anchor: Anchor,
        payloads: Vec<String>,
        line_num: usize,
        mode: BlockMode,
        register: Option<String>,
    )
        ensures
            final(self)@ == old(self)@.with_edits(
                block_edit(
                    anchor,
                    strs(payloads@),
                    mode,
                    opt_text(register),
                    line_num as nat,
                    old(self)@.edits.len(),
                ),
            ),
    {
        let index = self.edits.len();
        self.push_one(Edit::Block { anchor, payloads, mode, register, line_num, index });
    }

    fn push_bare_block(
        &mut self,
        anchor: Anchor,
        line_num: usize,
        mode: BlockMode,
        register: Option<String>,
    )
        ensures
            final(self)@ == old(self)@.with_edits(
                block_edit(
                    anchor,
                    seq![],
                    mode,
                    opt_text(register),
                    line_num as nat,
                    old(self)@.edits.len(),
                ),
            ),
    {
        let none: Vec<String> = Vec::new();
        proof {
            assert(strs(none@) =~= seq![]);
        }
        self.push_block(anchor, none, line_num, mode, register);
    }

    fn push_rows(&mut self, texts: &[String], cursor: Cursor, line_num: usize, replacement: bool)
        ensures
            final(self)@ == old(self)@.with_edits(
                inserts(
                    strs(texts@),
                    cursor,
                    line_num as nat,
                    old(self)@.edits.len(),
                    replacement,
                    None,
                ),
            ),
    {
        let index = self.edits.len();
        push_inserts(&mut self.edits, texts, cursor, line_num, index, replacement, None);
    }

    fn flush_span(
        &mut self,
        range: ParsedRange,
        register: Option<String>,
        had_colon: bool,
        texts: &[String],
        line_num: usize,
    ) -> (res: Result<(), ParseError>)
        ensures
            agrees(
                res,
                final(self)@,
                op_done(
                    old(self)@,
                    OpView {
                        target: Target::Replace { range },
                        register: opt_text(register),
                        had_colon,
                    },
                    strs(texts@),
                    line_num as nat,
                ),
            ),
    {
        match validate_range(range, line_num) {
            Ok(_) => {},
            Err(e) => {
                return Err(e);
            },
        }
        if register.is_some() {
            self.push_paste(PasteTarget::Span { range }, register, line_num);
            return Ok(());
        }
        if texts.len() == 0 {
            if !had_colon {
                return Err(
                    error_at(
                        line_num,
                        "colonless span `PUT` needs a register (`PUT N.=M @name`) or a `:` body",
                    ),
                );
            }
            self.push_delete_range(range, line_num);
            self.warn("empty `PUT` body as deletion; use `CUT` to delete lines");
            return Ok(());
        }
        let cursor = Cursor::BeforeAnchor { anchor: range.start };
        self.push_rows(texts, cursor, line_num, true);
        self.push_delete_range(range, line_num);
        proof {
            let n = old(self)@.edits.len();
            let a = inserts(strs(texts@), cursor, line_num as nat, n, true, None);
            let b = deletes(
                range.start.line,
                range.end.line,
                line_num as nat,
                n + strs(texts@).len(),
            );
            assert(old(self)@.edits + a + b =~= old(self)@.edits + (a + b));
        }
        Ok(())
    }

    fn flush_block(
        &mut self,
        anchor: Anchor,
        register: Option<String>,
        had_colon: bool,
        texts: Vec<String>,
        line_num: usize,
    ) -> (res: Result<(), ParseError>)
        ensures
            agrees(
                res,
                final(self)@,
                op_done(
                    old(self)@,
                    OpView {
                        target: Target::Block { anchor },
                        register: opt_text(register),
                        had_colon,
                    },
                    strs(texts@),
                    line_num as nat,
                ),
            ),
    {
        if register.is_some() {
            self.push_bare_block(anchor, line_num, BlockMode::Replace, register);
            return Ok(());
        }
        if texts.len() == 0 {
            if !had_colon {
                return Err(
                    error_at(
                        line_num,
                        "colonless span `PUT` needs a register (`PUT N.=M @name`) or a `:` body",
                    ),
                );
            }
            self.push_bare_block(anchor, line_num, BlockMode::Replace, None);
            self.warn("empty `PUT` body as deletion; use `CUT` to delete lines");
            return Ok(());
        }
        self.push_block(anchor, texts, line_num, BlockMode::Replace, None);
        Ok(())
    }

    fn flush_after_block(
        &mut self,
        anchor: Anchor,
        register: Option<String>,
        had_colon: bool,
        texts: Vec<String>,
        line_num: usize,
    ) -> (res: Result<(), ParseError>)
        ensures
            agrees(
                res,
                final(self)@,
                op_done(
                    old(self)@,
                    OpView {
                        target: Target::InsertAfterBlock { anchor },
                        register: opt_text(register),
                        had_colon,
                    },
                    strs(texts@),
                    line_num as nat,
                ),
            ),
    {
        if register.is_some() || (!had_colon && texts.len() == 0) {
            self.push_bare_block(anchor, line_num, BlockMode::PasteAfter, register);
            return Ok(());
        }
        if texts.len() == 0 {
            return Err(error_at(line_num, "`PUT` insert promises body rows"));
        }
        self.push_block(anchor, texts, line_num, BlockMode::InsertAfter, None);
        Ok(())
    }

    fn flush_gap(
        &mut self,
        target: Target,
        register: Option<String>,
        had_colon: bool,
        texts: &[String],
        line_num: usize,
    ) -> (res: Result<(), ParseError>)
        requires
            target is InsertBefore || target is InsertAfter || target is Bof || target is Eof,
        ensures
            agrees(
                res,
                final(self)@,
                op_done(
                    old(self)@,
                    OpView { target, register: opt_text(register), had_colon },
                    strs(texts@),
                    line_num as nat,
                ),
            ),
    {
        let cursor = cursor_of(target);
        if register.is_some() || (!had_colon && texts.len() == 0) {
            self.push_paste(PasteTarget::Gap { cursor }, register, line_num);
            return Ok(());
        }
        if texts.len() == 0 {
            return Err(error_at(line_num, "`PUT` insert promises body rows"));
        }
        self.push_rows(texts, cursor, line_num, false);
        Ok(())
    }

    /// Carry out an op whose body rows are known.
    fn finish_op(&mut self, op: Op, texts: Vec<String>, line_num: usize) -> (res: Result<
        (),
        ParseError,
    >)
        ensures
            agrees(
                res,
                final(self)@,
                op_done(old(self)@, op@, strs(texts@), line_num as nat),
            ),
    {
        let Op { target, register, had_colon } = op;
        match target {
            Target::Cut { range } => {
                match validate_range(range, line_num) {
                    Ok(_) => {},
                    Err(e) => {
                        return Err(e);
                    },
                }
                self.push_cut(range, line_num, register);
                Ok(())
            },
            Target::CutBlock { anchor } => {
                self.push_bare_block(anchor, line_num, BlockMode::Cut, register);
                Ok(())
            },
            Target::Replace { range } => self.flush_span(
                range,
                register,
                had_colon,
                texts.as_slice(),
                line_num,
            ),
            Target::Block { anchor } => self.flush_block(
                anchor,
                register,
                had_colon,
                texts,
                line_num,
            ),
            Target::InsertAfterBlock { anchor } => self.flush_after_block(
                anchor,
                register,
                had_colon,
                texts,
                line_num,
            ),
            gap => self.flush_gap(gap, register, had_colon, texts.as_slice(), line_num),
        }
    }

    fn flush_pending(&mut self) -> (res: Result<(), ParseError>)
        ensures
            agrees(res, final(self)@, flushed(old(self)@)),
    {
        let pending = match self.pending.take() {
            Some(pending) => pending,
            None => {
                return Ok(());
            },
        };
        let Pending { op, line_num, payloads, deferred_blanks: _ } = pending;
        let rows = match resolve_minus_rows(payloads) {
            Ok(rows) => rows,
            Err(e) => {
                return Err(e);
            },
        };
        let rows = strip_bare_prefixes_if_uniform(rows);
        let texts = texts_of(rows.as_slice());
        self.finish_op(op, texts, line_num)
    }

    fn feed_op(&mut self, op: Op, line_num: usize) -> (res: Result<(), ParseError>)
        ensures
            agrees(res, final(self)@, op_fed(old(self)@, op@, line_num as nat)),
    {
        if op.had_colon && cuts(op.target) {
            self.warn("`CUT` colon is ignored");
        }
        if op.had_colon && op.register.is_some() {
            return Err(error_at(line_num, "register `PUT` takes no `:` body"));
        }
        match self.flush_pending() {
            Ok(_) => {},
            Err(e) => {
                return Err(e);
            },
        }
        let ghost done = self@;
        let pending = Pending {
            op,
            line_num,
            payloads: Vec::new(),
            deferred_blanks: Vec::new(),
        };
        proof {
            assert(row_views(pending.payloads@) =~= seq![]);
            assert(row_views(pending.deferred_blanks@) =~= seq![]);
        }
        self.pending = Some(pending);
        Ok(())
    }

    fn feed_file_op(&mut self, op: FileOp, line_num: usize) -> (res: Result<(), ParseError>)
        ensures
            agrees(res, final(self)@, file_op_fed(old(self)@, op@, line_num as nat)),
    {
        match self.flush_pending() {
            Ok(_) => {},
            Err(e) => {
                return Err(e);
            },
        }
        if self.file_op.is_some() {
            return Err(
                error_at(line_num, "only one file-level op (`REM` or `MV`) per section"),
            );
        }
        if let FileOp::Rem = &op {
            if self.edits.len() > 0 {
                return Err(
                    error_at(
                        line_num,
                        "`REM` deletes the whole file and cannot be combined with line ops",
                    ),
                );
            }
        }
        self.file_op = Some(op);
        Ok(())
    }

    /// Add a row to the pending op, behind the blank rows that waited for it.
    fn push_row(&mut self, row: PayloadRow)
        requires
            old(self)@.pending is Some,
        ensures
            ({
                let p = old(self)@.pending->0;
                final(self)@ == (BodyView {
                    pending: Some(
                        PendingView {
                            payloads: (p.payloads + p.deferred).push(row@),
                            deferred: seq![],
                            ..p
                        },
                    ),
                    ..old(self)@
                })
            }),
    {
        if let Some(pending) = self.pending.take() {
            let Pending { op, line_num, payloads, deferred_blanks } = pending;
            let mut rows = payloads;
            let mut blanks = deferred_blanks;
            let ghost a = row_views(rows@);
            let ghost b = row_views(blanks@);
            rows.append(&mut blanks);
            proof {
                assert(row_views(rows@) =~= a + b);
            }
            rows.push(row);
            proof {
                assert(row_views(rows@) =~= (a + b).push(row@));
            }
            let none: Vec<PayloadRow> = Vec::new();
            proof {
                assert(row_views(none@) =~= seq![]);
            }
            self.pending = Some(Pending { op, line_num, payloads: rows, deferred_blanks: none });
        }
    }

    /// Keep a blank row until another row follows.
    fn defer_row(&mut self, row: PayloadRow)
        requires
            old(self)@.pending is Some,
        ensures
            ({
                let p = old(self)@.pending->0;
                final(self)@ == (BodyView {
                    pending: Some(PendingView { deferred: p.deferred.push(row@), ..p }),
                    ..old(self)@
                })
            }),
    {
        if let Some(pending) = self.pending.take() {
            let Pending { op, line_num, payloads, deferred_blanks } = pending;
            let mut blanks = deferred_blanks;
            let ghost had = row_views(blanks@);
            blanks.push(row);
            proof {
                assert(row_views(blanks@) =~= had.push(row@));
            }
            self.pending = Some(Pending { op, line_num, payloads, deferred_blanks: blanks });
        }
    }

    fn handle_literal(&mut self, text: String, line_num: usize) -> (res: Result<(), ParseError>)
        ensures
            agrees(res, final(self)@, literal_fed(old(self)@, text@, line_num as nat)),
    {
        let why = match &self.pending {
            Some(pending) => bodyless_message(&pending.op),
            None => {
                if self.file_op.is_some() {
                    return Err(error_at(line_num, "file-level op takes no body rows"));
                }
                let mut row = String::new();
                row.push('+');
                row.append(text.as_str());
                let mut message = line_message(line_num);
                message.append("payload line has no preceding hunk header. Got ");
                message.append(quoted(row.as_str()).as_str());
                message.append(".");
                proof {
                    assert(row@ =~= seq!['+'] + text@);
                }
                return Err(ParseError::Message(message));
            },
        };
        if let Some(why) = why {
            return Err(error_at(line_num, why));
        }
        if is_hunk_header_text(text.as_str()) {
            let mut warning = line_message(line_num);
            warning.append("body row looks like an op header and will be inserted as text");
            self.warn(warning.as_str());
        }
        self.push_row(PayloadRow { text, line_num, bare: false, minus: false });
        Ok(())
    }

    fn handle_raw(&mut self, text: String, line_num: usize) -> (res: Result<(), ParseError>)
        ensures
            agrees(res, final(self)@, raw_fed(old(self)@, text@, line_num as nat)),
    {
        let chars = chars_of(text.as_str());
        let is_empty = blank(chars.as_slice());
        let (why, has_payloads, has_deferred) = match &self.pending {
            Some(pending) => (
                bodyless_message(&pending.op),
                pending.payloads.len() > 0,
                pending.deferred_blanks.len() > 0,
            ),
            None => {
                if is_empty {
                    return Ok(());
                }
                let mut message = line_message(line_num);
                message.append(
                    "payload line has no preceding hunk header. Use `PUT N.=M:`, `CUT N.=M`, or `PUT <N:`/`PUT >N:` above the body. Got ",
                );
                message.append(quoted(text.as_str()).as_str());
                message.append(".");
                return Err(ParseError::Message(message));
            },
        };
        if is_empty {
            if why.is_none() && has_payloads {
                self.defer_row(PayloadRow { text, line_num, bare: true, minus: false });
            }
            return Ok(());
        }
        if let Some(why) = why {
            return Err(error_at(line_num, why));
        }
        let minus = first_is(trim_start(chars.as_slice(), CharClass::White), '-');
        if has_deferred || !minus {
            self.warn("Auto-prefixed bare body row");
        }
        self.push_row(PayloadRow { text, line_num, bare: true, minus });
        Ok(())
    }

    fn feed_line(&mut self, line: &str, line_num: usize) -> (res: Result<(), ParseError>)
        ensures
            agrees(res, final(self)@, line_fed(old(self)@, line@, line_num as nat)),
    {
        if same_text(line, "*** Begin Patch") {
            return Ok(());
        }
        if same_text(line, "*** End Patch") || same_text(line, "*** Abort")
            || parse_hashline_header(line).is_some() {
            return self.flush_pending();
        }
        let chars = chars_of(line);
        let s = chars.as_slice();
        if s.len() == 0 {
            return self.handle_raw(line.to_owned(), line_num);
        }
        if s[0] == '+' {
            return self.handle_literal(string_of(skip(s, 1)), line_num);
        }
        if let Some(locator) = strip_prefix(s, "PUT ") {
            return match parse_put_target(locator) {
                Ok(op) => self.feed_op(op, line_num),
                Err(e) => Err(e),
            };
        }
        if let Some(locator) = strip_prefix(s, "CUT ") {
            return match parse_cut_target(locator) {
                Ok(op) => self.feed_op(op, line_num),
                Err(e) => Err(e),
            };
        }
        if same_as(trim(s), "REM") {
            return self.feed_file_op(FileOp::Rem, line_num);
        }
        if let Some(dest) = strip_prefix(s, "MV ") {
            return self.feed_file_op(FileOp::Move { dest: unquote_path(dest) }, line_num);
        }
        self.handle_raw(line.to_owned(), line_num)
    }

    fn finish(self, streaming: bool) -> (res: Result<ParsedBody, ParseError>)
        ensures
            match res {
                Ok(done) => body_finished(self@, streaming) == Ok::<BodyView, Seq<char>>(done@),
                Err(e) => body_finished(self@, streaming) == Err::<BodyView, Seq<char>>(e@),
            },
    {
        let mut exec = self;
        proof {
            lemma_flushed_has_no_pending(exec@);
        }
        let unfinished = match &exec.pending {
            Some(pending) => streaming && !complete(pending),
            None => false,
        };
        if unfinished {
            exec.pending = None;
        } else {
            match exec.flush_pending() {
                Ok(_) => {},
                Err(e) => {
                    return Err(e);
                },
            }
        }
        let rem = match &exec.file_op {
            Some(FileOp::Rem) => true,
            _ => false,
        };
        if rem && exec.edits.len() > 0 {
            return Err(
                ParseError::Message(
                    "`REM` deletes the whole file and cannot be combined with line ops".to_owned(),
                ),
            );
        }
        Ok(ParsedBody { edits: exec.edits, file_op: exec.file_op, warnings: exec.warnings })
    }
}

fn complete(pending: &Pending) -> (yes: bool)
    ensures
        yes == is_complete(pending@),
{
    let open_target = match pending.op.target {
        Target::Replace { .. } => true,
        Target::Block { .. } => true,
        _ => false,
    };
    cuts(pending.op.target) || pending.op.register.is_some() || (!pending.op.had_colon
        && !open_target) || pending.payloads.len() > 0
}

proof fn lemma_flushed_has_no_pending(body: BodyView)
    ensures
        flushed(body) matches Ok(done) ==> done.pending is None,
{
}

/// A read section body.
#[derive(Debug)]
pub struct ParsedBody {
    pub edits: Vec<Edit>,
    pub file_op: Option<FileOp>,
    pub warnings: Vec<String>,
}

impl View for ParsedBody {
    type V = BodyView;

    open spec fn view(&self) -> BodyView {
        BodyView {
            edits: edit_views(self.edits@),
            warnings: strs(self.warnings@),
            pending: None,
            file_op: opt_file_op(self.file_op),
        }
    }
}

impl Clone for ParsedBody {
    fn clone(&self) -> (r: Self)
        ensures
            r@ == self@,
    {
        ParsedBody {
            edits: copy_edits(self.edits.as_slice()),
            file_op: match &self.file_op {
                Some(op) => Some(op.clone()),
                None => None,
            },
            warnings: copy_strings(self.warnings.as_slice()),
        }
    }
}

/// Whether a parse result agrees with an outcome of the model.
pub open spec fn parse_result(
    res: Result<ParsedBody, ParseError>,
    expected: Result<BodyView, Seq<char>>,
) -> bool {
    match res {
        Ok(body) => expected == Ok::<BodyView, Seq<char>>(body@),
        Err(e) => expected == Err::<BodyView, Seq<char>>(e@),
    }
}

/// Read a complete section body.
pub fn parse_patch(diff: &str) -> (res: Result<ParsedBody, ParseError>)
    ensures
        parse_result(res, parsed(diff@, false)),
{
    parse_patch_inner(diff, false)
}

/// Read a section body of which more may follow.
pub fn parse_patch_streaming(diff: &str) -> (res: Result<ParsedBody, ParseError>)
    ensures
        parse_result(res, parsed(diff@, true)),
{
    parse_patch_inner(diff, true)
}

fn parse_patch_inner(diff: &str, streaming: bool) -> (res: Result<ParsedBody, ParseError>)
    ensures
        parse_result(res, parsed(diff@, streaming)),
{
    let mut exec = Executor::new();
    let lines = split_input_lines(chars_of(diff).as_slice());
    let ghost all = strs(lines@);
    let mut i: usize = 0;
    proof {
        assert(all.take(0) =~= seq![]);
    }
    while i < lines.len()
        invariant
            i <= lines.len(),
            all == strs(lines@),
            all == input_lines(diff@),
            lines_fed(all.take(i as int)) == Ok::<BodyView, Seq<char>>(exec@),
        decreases lines.len() - i,
    {
        proof {
            assert(all.take(i + 1).drop_last() =~= all.take(i as int));
            assert(all.take(i + 1).last() == lines@[i as int]@);
            if lines_fed(all.take(i + 1)) is Err {
                lemma_error_stays(all, i + 1);
            }
        }
        match exec.feed_line(lines[i].as_str(), i + 1) {
            Ok(_) => {},
            Err(e) => {
                return Err(e);
            },
        }
        i += 1;
    }
    proof {
        assert(all.take(i as int) =~= all);
    }
    exec.finish(streaming)
}

/// Lines that could not be read stay so, whatever follows.
proof fn lemma_error_stays(lines: Seq<Seq<char>>, i: int)
    requires
        0 <= i <= lines.len(),
        lines_fed(lines.take(i)) is Err,
    ensures
        lines_fed(lines) == lines_fed(lines.take(i)),
    decreases lines.len(),
{
    if i < lines.len() {
        let front = lines.drop_last();
        assert(front.take(i) =~= lines.take(i));
        lemma_error_stays(front, i);
    } else {
        assert(lines.take(i) =~= lines);
    }
}

fn split_input_lines(s: &[char]) -> (out: Vec<String>)
    ensures
        strs(out@) == input_lines(s@),
{
    let spans = line_spans(s);
    let ghost lines = lines_of(s@);
    let ghost kept = Seq::new(lines.len(), |i: int| trimmed_end(lines[i], CharClass::Return));
    let mut out: Vec<String> = Vec::new();
    let mut i: usize = 0;
    let mut last_empty = false;
    while i < spans.len()
        invariant
            i <= spans.len(),
            lines == lines_of(s@),
            kept == Seq::new(lines.len(), |i: int| trimmed_end(lines[i], CharClass::Return)),
            spans_of(spans@, s@, lines),
            out@.len() == i,
            forall|j: int| 0 <= j < i ==> (#[trigger] out@[j])@ == kept[j],
            i > 0 ==> last_empty == (kept[i - 1].len() == 0),
        decreases spans.len() - i,
    {
        let span = spans[i];
        let line = trim_end(part(s, span.0, span.1), CharClass::Return);
        last_empty = line.len() == 0;
        out.push(string_of(line));
        i += 1;
    }
    proof {
        assert(strs(out@) =~= kept);
    }
    if last_empty {
        out.pop();
        proof {
            assert(strs(out@) =~= kept.drop_last());
        }
    }
    out
}

/// A patch while it is being read.
struct Reader {
    sections: Vec<PatchSection>,
    current: Option<(String, Option<String>)>,
    body: Vec<String>,
    aborted: bool,
}

impl View for Reader {
    type V = InputView;

    closed spec fn view(&self) -> InputView {
        InputView {
            sections: section_views(self.sections@),
            current: header_view(self.current),
            body: strs(self.body@),
            aborted: self.aborted,
        }
    }
}

impl Reader {
    fn end_section(&mut self)
        ensures
            final(self)@ == section_ended(old(self)@),
    {
        if let Some((path, file_hash)) = self.current.take() {
            let text = join_text(self.body.as_slice());
            let is_empty = chars_of(text.as_str()).len() == 0;
            if !is_empty || file_hash.is_some() {
                let section = PatchSection { path, file_hash, body: text };
                self.sections.push(section);
                proof {
                    assert(section_views(self.sections@) =~= section_views(
                        old(self).sections@,
                    ).push(section@));
                }
            }
            self.body = Vec::new();
            proof {
                assert(strs(self.body@) =~= seq![]);
            }
        }
    }

    fn feed(&mut self, line: &str)
        ensures
            final(self)@ == input_fed(old(self)@, line@),
    {
        if self.aborted || same_text(line, "*** Begin Patch") || same_text(line, "*** End Patch") {
            return;
        }
        if same_text(line, "*** Abort") {
            self.end_section();
            self.aborted = true;
            return;
        }
        match parse_hashline_header(line) {
            Some(header) => {
                self.end_section();
                self.current = Some(header);
            },
            None => {
                if self.current.is_none() {
                    self.current = Some((String::new(), None));
                    proof {
                        assert(header_view(self.current) == Some((Seq::<char>::empty(), None::<Seq<char>>)));
                    }
                }
                self.body.push(line.to_owned());
                proof {
                    assert(strs(self.body@) =~= strs(old(self).body@).push(line@));
                }
            },
        }
    }
}

/// Read a patch: `[PATH#TAG]` headers, each with the body that follows it.
pub fn parse_input(input: &str) -> (res: Result<Patch, ParseError>)
    ensures
        res is Ok,
        section_views(res->Ok_0.sections@) == patch_sections(input@),
{
    let chars = chars_of(input);
    let lines = split_input_lines(trim_start(chars.as_slice(), CharClass::LineBreak));
    let ghost all = strs(lines@);
    let mut reader = Reader {
        sections: Vec::new(),
        current: None,
        body: Vec::new(),
        aborted: false,
    };
    let mut i: usize = 0;
    proof {
        assert(all.take(0) =~= seq![]);
        assert(reader@ =~= empty_input());
    }
    while i < lines.len()
        invariant
            i <= lines.len(),
            all == strs(lines@),
            reader@ == input_run(all.take(i as int)),
        decreases lines.len() - i,
    {
        proof {
            assert(all.take(i + 1).drop_last() =~= all.take(i as int));
            assert(all.take(i + 1).last() == lines@[i as int]@);
        }
        reader.feed(lines[i].as_str());
        i += 1;
    }
    proof {
        assert(all.take(i as int) =~= all);
    }
    reader.end_section();
    Ok(Patch { sections: reader.sections })
}

} // verus!
