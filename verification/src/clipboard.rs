//! Clipboard registers for CUT and register PUT.

use crate::text::{at_line, decimal, line_message, push_decimal, strs};
use crate::types::{
    copy_registers, copy_strings, deletes, edit_views, empty_clipboard, inserts, lemma_named_insert,
    opt_text, push_deletes, push_inserts, Clipboard, ClipboardView, Cursor, Edit, EditView,
    ParsedRange, PasteTarget,
};
use vstd::prelude::*;
use vstd::slice::slice_subrange;

verus! {

#[derive(Debug)]
pub enum ClipboardError {
    Message(String),
}

impl View for ClipboardError {
    type V = Seq<char>;

    open spec fn view(&self) -> Seq<char> {
        match self {
            ClipboardError::Message(m) => m@,
        }
    }
}

impl ClipboardError {
    pub fn message(&self) -> (m: String)
        ensures
            m@ == self@,
    {
        match self {
            ClipboardError::Message(m) => m.clone(),
        }
    }
}

// ---------------------------------------------------------------------------------------------
// Model

/// How a cut is named in messages and in the list of pending cuts.
pub open spec fn cut_text(range: ParsedRange, register: Option<Seq<char>>) -> Seq<char> {
    let lines = "CUT "@ + decimal(range.start.line as nat) + "=.="@ + decimal(
        range.end.line as nat,
    );
    match register {
        Some(name) => lines + " @"@ + name,
        None => lines,
    }
}

/// Whether the lines of a range, if they lie in a text of `count` lines, can be captured: a range
/// may be empty but its end may not lie further ahead of its start.
pub open spec fn can_capture(range: ParsedRange, count: nat) -> bool {
    1 <= range.start.line && range.end.line <= count ==> range.start.line <= range.end.line + 1
}

/// No cut ends more than a line ahead of its start.
pub open spec fn cuts_run_forward(edits: Seq<EditView>) -> bool {
    forall|i: int|
        0 <= i < edits.len() && (#[trigger] edits[i]) is Cut ==> edits[i]->Cut_range.start.line
            <= edits[i]->Cut_range.end.line + 1
}

/// What reading a register comes to.
#[verifier::ext_equal]
pub enum RegisterRead {
    /// The lines to paste, with the clipboard and the warnings as they are afterwards.
    Lines { lines: Seq<Seq<char>>, clip: ClipboardView, warnings: Seq<Seq<char>> },
    /// The paste is dropped.
    Dropped,
    Failed { message: Seq<char> },
}

/// Read a register for a paste over a span (`over_span`) or into a gap.
///
/// A named register that is empty pastes nothing into a gap, with a warning, and cannot be pasted
/// over a span. The anonymous register can be pasted once exactly one cut, or none, is pending.
pub open spec fn register_read(
    register: Option<Seq<char>>,
    over_span: bool,
    clip: ClipboardView,
    line_num: nat,
    drop_empty: bool,
    warnings: Seq<Seq<char>>,
) -> RegisterRead {
    match register {
        Some(name) => {
            let empty = at_line(line_num) + "named register @"@ + name;
            if clip.named.contains_key(name) {
                RegisterRead::Lines { lines: clip.named[name], clip, warnings }
            } else if drop_empty {
                RegisterRead::Dropped
            } else if over_span {
                RegisterRead::Failed {
                    message: empty + " is empty; cannot paste over a span"@,
                }
            } else {
                RegisterRead::Lines {
                    lines: seq![],
                    clip,
                    warnings: warnings.push(empty + " is empty; pasting nothing"@),
                }
            }
        },
        None => {
            if clip.pending.len() > 1 {
                if drop_empty {
                    RegisterRead::Dropped
                } else {
                    RegisterRead::Failed {
                        message: at_line(line_num) + "ambiguous unlabeled paste; "@ + decimal(
                            clip.pending.len(),
                        ) + " pending anonymous CUTs"@,
                    }
                }
            } else {
                match clip.lines {
                    Some(lines) => RegisterRead::Lines {
                        lines,
                        clip: ClipboardView { pending: seq![], ..clip },
                        warnings,
                    },
                    None => if drop_empty {
                        RegisterRead::Dropped
                    } else {
                        RegisterRead::Failed {
                            message: at_line(line_num)
                                + "unlabeled paste with empty anonymous register"@,
                        }
                    },
                }
            }
        },
    }
}

/// The clipboard after `captured` went into a register.
pub open spec fn captured_into(
    clip: ClipboardView,
    range: ParsedRange,
    register: Option<Seq<char>>,
    captured: Seq<Seq<char>>,
) -> ClipboardView {
    match register {
        Some(name) => ClipboardView { named: clip.named.insert(name, captured), ..clip },
        None => ClipboardView {
            lines: Some(captured),
            pending: clip.pending.push(cut_text(range, None)),
            ..clip
        },
    }
}

/// Where a run over a list of edits stands.
#[verifier::ext_equal]
pub struct ClipRun {
    pub clip: ClipboardView,
    pub warnings: Seq<Seq<char>>,
    /// The edits that stand for those seen so far.
    pub out: Seq<EditView>,
    /// The number of the next edit that stands for a paste.
    pub next: nat,
    /// The message that ended the run.
    pub error: Option<Seq<char>>,
}

pub open spec fn out_of_range(line_num: nat, what: Seq<char>, count: nat) -> Seq<char> {
    at_line(line_num) + what + " is out of range (file has "@ + decimal(count) + " lines)."@
}

/// One edit: a cut fills its register and leaves no edit, a paste becomes insertions of what its
/// register holds, and any other edit stands for itself.
pub open spec fn clip_step(
    run: ClipRun,
    edit: EditView,
    lines: Seq<Seq<char>>,
    drop_empty: bool,
) -> ClipRun {
    if run.error is Some {
        run
    } else {
        match edit {
            EditView::Cut { range, register, line_num, .. } => {
                if range.start.line < 1 || range.end.line > lines.len() {
                    ClipRun {
                        error: Some(
                            out_of_range(
                                line_num,
                                "`"@ + cut_text(range, register) + "`"@,
                                lines.len(),
                            ),
                        ),
                        ..run
                    }
                } else {
                    ClipRun {
                        clip: captured_into(
                            run.clip,
                            range,
                            register,
                            lines.subrange(range.start.line - 1, range.end.line as int),
                        ),
                        ..run
                    }
                }
            },
            EditView::Paste { at, register, line_num, block_start, .. } => {
                match register_read(
                    register,
                    at is Span,
                    run.clip,
                    line_num,
                    drop_empty,
                    run.warnings,
                ) {
                    RegisterRead::Dropped => run,
                    RegisterRead::Failed { message } => ClipRun { error: Some(message), ..run },
                    RegisterRead::Lines { lines: texts, clip, warnings } => {
                        let read = ClipRun { clip, warnings, ..run };
                        match at {
                            PasteTarget::Gap { cursor } => ClipRun {
                                out: run.out + inserts(
                                    texts,
                                    cursor,
                                    line_num,
                                    run.next,
                                    false,
                                    block_start,
                                ),
                                next: run.next + texts.len(),
                                ..read
                            },
                            PasteTarget::Span { range } => if range.start.line < 1
                                || range.end.line > lines.len() {
                                ClipRun {
                                    error: Some(
                                        out_of_range(line_num, "span paste"@, lines.len()),
                                    ),
                                    ..read
                                }
                            } else {
                                let after = run.next + texts.len();
                                let gone = deletes(
                                    range.start.line,
                                    range.end.line,
                                    line_num,
                                    after,
                                );
                                ClipRun {
                                    out: run.out + inserts(
                                        texts,
                                        Cursor::BeforeAnchor { anchor: range.start },
                                        line_num,
                                        run.next,
                                        true,
                                        None,
                                    ) + gone,
                                    next: after + gone.len(),
                                    ..read
                                }
                            },
                        }
                    },
                }
            },
            _ => ClipRun { out: run.out.push(edit), ..run },
        }
    }
}

/// All edits, from left to right.
pub open spec fn clip_run(
    edits: Seq<EditView>,
    lines: Seq<Seq<char>>,
    clip: ClipboardView,
    warnings: Seq<Seq<char>>,
    drop_empty: bool,
) -> ClipRun
    decreases edits.len(),
{
    if edits.len() == 0 {
        ClipRun { clip, warnings, out: seq![], next: 0, error: None }
    } else {
        clip_step(
            clip_run(edits.drop_last(), lines, clip, warnings, drop_empty),
            edits.last(),
            lines,
            drop_empty,
        )
    }
}

/// Every cut that the run reaches can be captured.
pub open spec fn can_run(
    edits: Seq<EditView>,
    lines: Seq<Seq<char>>,
    clip: ClipboardView,
    warnings: Seq<Seq<char>>,
    drop_empty: bool,
) -> bool {
    forall|i: int|
        #![trigger edits[i]]
        0 <= i < edits.len() && clip_run(
            edits.take(i),
            lines,
            clip,
            warnings,
            drop_empty,
        ).error is None && edits[i] is Cut ==> can_capture(edits[i]->Cut_range, lines.len())
}

pub open spec fn is_clip_edit(edit: EditView) -> bool {
    edit is Cut || edit is Paste
}

/// The clipboard after the checks of `validate_clipboard_sequence` on `edits`, or the message of
/// the first paste that cannot be made.
pub open spec fn validated(edits: Seq<EditView>, clip: ClipboardView) -> Result<
    ClipboardView,
    Seq<char>,
>
    decreases edits.len(),
{
    if edits.len() == 0 {
        Ok(clip)
    } else {
        match validated(edits.drop_last(), clip) {
            Err(message) => Err(message),
            Ok(now) => match edits.last() {
                EditView::Cut { range, register, .. } => Ok(
                    captured_into(now, range, register, seq![]),
                ),
                EditView::Paste { at, register, line_num, .. } => {
                    match register_read(register, at is Span, now, line_num, false, seq![]) {
                        RegisterRead::Lines { clip, .. } => Ok(clip),
                        RegisterRead::Dropped => Ok(now),
                        RegisterRead::Failed { message } => Err(message),
                    }
                },
                _ => Ok(now),
            },
        }
    }
}

/// No cut and no paste over a span leaves a text of `count` lines.
pub open spec fn ranges_lie_inside(edits: Seq<EditView>, count: nat) -> bool {
    forall|i: int|
        0 <= i < edits.len() ==> match #[trigger] edits[i] {
            EditView::Cut { range, .. } => 1 <= range.start.line && range.end.line <= count,
            EditView::Paste { at: PasteTarget::Span { range }, .. } => 1 <= range.start.line
                && range.end.line <= count,
            _ => true,
        }
}

/// Two clipboards whose registers are filled alike, whatever lines they hold.
pub open spec fn filled_alike(a: ClipboardView, b: ClipboardView) -> bool {
    &&& a.named.dom() == b.named.dom()
    &&& a.lines is Some <==> b.lines is Some
    &&& a.pending == b.pending
}

// ---------------------------------------------------------------------------------------------
// Laws

/// A list without cuts and pastes stands for itself, and leaves the clipboard alone.
pub proof fn law_run_without_clipboard_edits(
    edits: Seq<EditView>,
    lines: Seq<Seq<char>>,
    clip: ClipboardView,
    warnings: Seq<Seq<char>>,
    drop_empty: bool,
)
    requires
        forall|i: int| 0 <= i < edits.len() ==> !is_clip_edit(#[trigger] edits[i]),
    ensures
        clip_run(edits, lines, clip, warnings, drop_empty) == (ClipRun {
            clip,
            warnings,
            out: edits,
            next: 0,
            error: None,
        }),
    decreases edits.len(),
{
    if edits.len() > 0 {
        law_run_without_clipboard_edits(edits.drop_last(), lines, clip, warnings, drop_empty);
        assert(edits =~= edits.drop_last().push(edits.last()));
    } else {
        assert(edits =~= seq![]);
    }
}

/// What a run that ends well leaves holds no cut and no paste.
pub proof fn law_run_leaves_no_clipboard_edits(
    edits: Seq<EditView>,
    lines: Seq<Seq<char>>,
    clip: ClipboardView,
    warnings: Seq<Seq<char>>,
    drop_empty: bool,
)
    ensures
        forall|i: int|
            #![trigger clip_run(edits, lines, clip, warnings, drop_empty).out[i]]
            0 <= i < clip_run(edits, lines, clip, warnings, drop_empty).out.len()
                ==> !is_clip_edit(clip_run(edits, lines, clip, warnings, drop_empty).out[i]),
    decreases edits.len(),
{
    if edits.len() > 0 {
        law_run_leaves_no_clipboard_edits(edits.drop_last(), lines, clip, warnings, drop_empty);
    }
}

/// Where every range lies inside the text, a sequence that the checks accept runs to its end, with
/// the registers filled as the checks left them. One that they refuse ends with their message.
pub proof fn law_validated_sequence_runs(
    edits: Seq<EditView>,
    lines: Seq<Seq<char>>,
    clip: ClipboardView,
    warnings: Seq<Seq<char>>,
)
    requires
        ranges_lie_inside(edits, lines.len()),
    ensures
        ({
            let run = clip_run(edits, lines, clip, warnings, false);
            match validated(edits, clip) {
                Ok(after) => run.error is None && filled_alike(run.clip, after),
                Err(message) => run.error == Some(message),
            }
        }),
    decreases edits.len(),
{
    if edits.len() > 0 {
        let front = edits.drop_last();
        assert forall|i: int| 0 <= i < front.len() implies #[trigger] front[i] == edits[i] by {}
        law_validated_sequence_runs(front, lines, clip, warnings);
        if let Ok(after) = validated(edits, clip) {
            let run = clip_run(edits, lines, clip, warnings, false);
            assert(run.clip.named.dom() =~= after.named.dom());
        }
    }
}

/// A line range that was cut into a named register and is pasted into a gap from it comes back
/// line by line.
pub proof fn law_paste_gives_back_cut(
    lines: Seq<Seq<char>>,
    clip: ClipboardView,
    warnings: Seq<Seq<char>>,
    range: ParsedRange,
    name: Seq<char>,
    cursor: Cursor,
    cut_line: nat,
    paste_line: nat,
    drop_empty: bool,
)
    requires
        1 <= range.start.line <= range.end.line <= lines.len(),
    ensures
        ({
            let cut = EditView::Cut { range, register: Some(name), line_num: cut_line, index: 0 };
            let paste = EditView::Paste {
                at: PasteTarget::Gap { cursor },
                register: Some(name),
                line_num: paste_line,
                index: 0,
                block_start: None,
            };
            let run = clip_run(seq![cut, paste], lines, clip, warnings, drop_empty);
            &&& run.error is None
            &&& run.warnings == warnings
            &&& run.out == inserts(
                lines.subrange(range.start.line - 1, range.end.line as int),
                cursor,
                paste_line,
                0,
                false,
                None,
            )
        }),
{
    let cut = EditView::Cut { range, register: Some(name), line_num: cut_line, index: 0 };
    let paste = EditView::Paste {
        at: PasteTarget::Gap { cursor },
        register: Some(name),
        line_num: paste_line,
        index: 0,
        block_start: None,
    };
    let both = seq![cut, paste];
    assert(both.drop_last() =~= seq![cut]);
    assert(both.drop_last().drop_last() =~= seq![]);
    reveal_with_fuel(clip_run, 3);
    let run = clip_run(both, lines, clip, warnings, drop_empty);
    assert(run.out =~= inserts(
        lines.subrange(range.start.line - 1, range.end.line as int),
        cursor,
        paste_line,
        0,
        false,
        None,
    ));
}

// ---------------------------------------------------------------------------------------------
// Executable functions

pub fn has_clipboard_edit(edits: &[Edit]) -> (yes: bool)
    ensures
        yes == exists|i: int| 0 <= i < edits@.len() && is_clip_edit((#[trigger] edits@[i])@),
{
    let mut i: usize = 0;
    while i < edits.len()
        invariant
            i <= edits.len(),
            forall|j: int| 0 <= j < i ==> !is_clip_edit((#[trigger] edits@[j])@),
        decreases edits.len() - i,
    {
        match &edits[i] {
            Edit::Cut { .. } => {
                assert(is_clip_edit(edits@[i as int]@));
                return true;
            },
            Edit::Paste { .. } => {
                assert(is_clip_edit(edits@[i as int]@));
                return true;
            },
            _ => {},
        }
        i += 1;
    }
    false
}

fn describe_cut(range: ParsedRange, register: &Option<String>) -> (out: String)
    ensures
        out@ == cut_text(range, opt_text(*register)),
{
    let mut out = "CUT ".to_owned();
    push_decimal(&mut out, range.start.line);
    out.append("=.=");
    push_decimal(&mut out, range.end.line);
    if let Some(name) = register {
        out.append(" @");
        out.append(name.as_str());
    }
    out
}

fn out_of_range_message(line_num: usize, what: &str, count: usize) -> (out: String)
    ensures
        out@ == out_of_range(line_num as nat, what@, count as nat),
{
    let mut out = line_message(line_num);
    out.append(what);
    out.append(" is out of range (file has ");
    push_decimal(&mut out, count);
    out.append(" lines).");
    out
}

fn read_register(
    register: &Option<String>,
    over_span: bool,
    clipboard: &mut Clipboard,
    line_num: usize,
    drop_empty: bool,
    warnings: &mut Vec<String>,
) -> (res: Result<Option<Vec<String>>, ClipboardError>)
    ensures
        match res {
            Ok(Some(lines)) => register_read(
                opt_text(*register),
                over_span,
                old(clipboard)@,
                line_num as nat,
                drop_empty,
                strs(old(warnings)@),
            ) == (RegisterRead::Lines {
                lines: strs(lines@),
                clip: final(clipboard)@,
                warnings: strs(final(warnings)@),
            }),
            Ok(None) => register_read(
                opt_text(*register),
                over_span,
                old(clipboard)@,
                line_num as nat,
                drop_empty,
                strs(old(warnings)@),
            ) is Dropped && final(clipboard)@ == old(clipboard)@ && strs(final(warnings)@) == strs(
                old(warnings)@,
            ),
            Err(e) => register_read(
                opt_text(*register),
                over_span,
                old(clipboard)@,
                line_num as nat,
                drop_empty,
                strs(old(warnings)@),
            ) == (RegisterRead::Failed { message: e@ }) && final(clipboard)@ == old(clipboard)@
                && strs(final(warnings)@) == strs(old(warnings)@),
        },
{
    if let Some(name) = register {
        if let Some(lines) = clipboard.named.get(name.as_str()) {
            return Ok(Some(copy_strings(lines.as_slice())));
        }
        if drop_empty {
            return Ok(None);
        }
        let mut message = line_message(line_num);
        message.append("named register @");
        message.append(name.as_str());
        if over_span {
            message.append(" is empty; cannot paste over a span");
            return Err(ClipboardError::Message(message));
        }
        message.append(" is empty; pasting nothing");
        warnings.push(message);
        let none: Vec<String> = Vec::new();
        proof {
            assert(strs(none@) =~= seq![]);
            assert(strs(warnings@) =~= strs(old(warnings)@).push(message@));
        }
        return Ok(Some(none));
    }
    if clipboard.pending_anon_cuts.len() > 1 {
        if drop_empty {
            return Ok(None);
        }
        let mut message = line_message(line_num);
        message.append("ambiguous unlabeled paste; ");
        push_decimal(&mut message, clipboard.pending_anon_cuts.len());
        message.append(" pending anonymous CUTs");
        return Err(ClipboardError::Message(message));
    }
    let copy = match &clipboard.lines {
        Some(lines) => copy_strings(lines.as_slice()),
        None => {
            if drop_empty {
                return Ok(None);
            }
            let mut message = line_message(line_num);
            message.append("unlabeled paste with empty anonymous register");
            return Err(ClipboardError::Message(message));
        },
    };
    clipboard.pending_anon_cuts = Vec::new();
    proof {
        assert(strs(clipboard.pending_anon_cuts@) =~= seq![]);
    }
    Ok(Some(copy))
}

/// Put lines into a register.
fn capture(
    range: ParsedRange,
    register: &Option<String>,
    captured: Vec<String>,
    clipboard: &mut Clipboard,
)
    ensures
        final(clipboard)@ == captured_into(
            old(clipboard)@,
            range,
            opt_text(*register),
            strs(captured@),
        ),
{
    if let Some(name) = register {
        proof {
            lemma_named_insert(clipboard.named@, name@, captured);
        }
        clipboard.named.insert(name.as_str(), captured);
    } else {
        clipboard.lines = Some(captured);
        let described = describe_cut(range, &None);
        clipboard.pending_anon_cuts.push(described);
        proof {
            assert(strs(clipboard.pending_anon_cuts@) =~= strs(
                old(clipboard).pending_anon_cuts@,
            ).push(described@));
        }
    }
}

fn write_register(
    range: ParsedRange,
    register: &Option<String>,
    line_num: usize,
    file_lines: &[String],
    clipboard: &mut Clipboard,
) -> (res: Result<(), ClipboardError>)
    requires
        can_capture(range, file_lines@.len()),
    ensures
        match res {
            Ok(_) => 1 <= range.start.line && range.end.line <= file_lines@.len() && final(clipboard)@ == captured_into(
                old(clipboard)@,
                range,
                opt_text(*register),
                strs(file_lines@).subrange(range.start.line - 1, range.end.line as int),
            ),
            Err(e) => (range.start.line < 1 || range.end.line > file_lines@.len()) && e@
                == out_of_range(
                line_num as nat,
                "`"@ + cut_text(range, opt_text(*register)) + "`"@,
                file_lines@.len(),
            ) && final(clipboard)@ == old(clipboard)@,
        },
{
    if range.start.line < 1 || range.end.line > file_lines.len() {
        let mut what = "`".to_owned();
        what.append(describe_cut(range, register).as_str());
        what.append("`");
        return Err(
            ClipboardError::Message(
                out_of_range_message(line_num, what.as_str(), file_lines.len()),
            ),
        );
    }
    let captured = copy_strings(
        slice_subrange(file_lines, range.start.line - 1, range.end.line),
    );
    proof {
        assert(strs(captured@) =~= strs(file_lines@).subrange(
            range.start.line - 1,
            range.end.line as int,
        ));
    }
    capture(range, register, captured, clipboard);
    Ok(())
}

/// Paste `texts` into a gap or over a span; gives the next free number.
fn paste(
    at: PasteTarget,
    texts: &[String],
    line_num: usize,
    block_start: Option<usize>,
    count: usize,
    out: &mut Vec<Edit>,
    next: usize,
) -> (res: Result<usize, ClipboardError>)
    requires
        next <= old(out)@.len(),
    ensures
        match at {
            PasteTarget::Gap { cursor } => res is Ok && res->Ok_0 == next + texts@.len()
                && edit_views(final(out)@) == edit_views(old(out)@) + inserts(
                strs(texts@),
                cursor,
                line_num as nat,
                next as nat,
                false,
                block_start,
            ),
            PasteTarget::Span { range } => if range.start.line < 1 || range.end.line > count {
                &&& res is Err
                &&& res->Err_0@ == out_of_range(line_num as nat, "span paste"@, count as nat)
                &&& final(out)@ == old(out)@
            } else {
                let after = (next + texts@.len()) as nat;
                let gone = deletes(range.start.line, range.end.line, line_num as nat, after);
                &&& res is Ok
                &&& res->Ok_0 == after + gone.len()
                &&& edit_views(final(out)@) == edit_views(old(out)@) + inserts(
                    strs(texts@),
                    Cursor::BeforeAnchor { anchor: range.start },
                    line_num as nat,
                    next as nat,
                    true,
                    None,
                ) + gone
            },
        },
        res matches Ok(n) ==> n <= final(out)@.len(),
{
    match at {
        PasteTarget::Gap { cursor } => Ok(
            push_inserts(out, texts, cursor, line_num, next, false, block_start),
        ),
        PasteTarget::Span { range } => {
            if range.start.line < 1 || range.end.line > count {
                return Err(
                    ClipboardError::Message(out_of_range_message(line_num, "span paste", count)),
                );
            }
            let cursor = Cursor::BeforeAnchor { anchor: range.start };
            let after = push_inserts(out, texts, cursor, line_num, next, true, None);
            Ok(push_deletes(out, range.start.line, range.end.line, line_num, after))
        },
    }
}

/// One edit of `resolve_clipboard_edits`; gives the next free number.
fn resolve_clipboard_edit(
    edit: &Edit,
    file_lines: &[String],
    clipboard: &mut Clipboard,
    on_empty_drop: bool,
    warnings: &mut Vec<String>,
    out: &mut Vec<Edit>,
    next: usize,
) -> (res: Result<usize, ClipboardError>)
    requires
        edit@ is Cut ==> can_capture(edit@->Cut_range, file_lines@.len()),
        next <= old(out)@.len(),
    ensures
        ({
            let run = clip_step(
                ClipRun {
                    clip: old(clipboard)@,
                    warnings: strs(old(warnings)@),
                    out: edit_views(old(out)@),
                    next: next as nat,
                    error: None,
                },
                edit@,
                strs(file_lines@),
                on_empty_drop,
            );
            &&& final(clipboard)@ == run.clip
            &&& strs(final(warnings)@) == run.warnings
            &&& match res {
                Ok(n) => run.error is None && edit_views(final(out)@) == run.out && n == run.next
                    && n <= final(out)@.len(),
                Err(e) => run.error == Some(e@),
            }
        }),
{
    match edit {
        Edit::Cut { range, register, line_num, .. } => {
            match write_register(*range, register, *line_num, file_lines, clipboard) {
                Ok(_) => Ok(next),
                Err(e) => Err(e),
            }
        },
        Edit::Paste { at, register, line_num, block_start, .. } => {
            let over_span = match at {
                PasteTarget::Gap { .. } => false,
                PasteTarget::Span { .. } => true,
            };
            match read_register(
                register,
                over_span,
                clipboard,
                *line_num,
                on_empty_drop,
                warnings,
            ) {
                Err(e) => Err(e),
                Ok(None) => Ok(next),
                Ok(Some(texts)) => paste(
                    *at,
                    texts.as_slice(),
                    *line_num,
                    *block_start,
                    file_lines.len(),
                    out,
                    next,
                ),
            }
        },
        other => {
            let kept = other.clone();
            out.push(kept);
            proof {
                assert(edit_views(out@) =~= edit_views(old(out)@).push(edit@));
            }
            Ok(next)
        },
    }
}

/// Carry out the cuts and pastes of a list of edits on the clipboard; gives the edits without
/// them, with the insertions that stand for the pastes.
pub fn resolve_clipboard_edits(
    edits: &[Edit],
    file_lines: &[String],
    clipboard: &mut Clipboard,
    on_empty_drop: bool,
    warnings: &mut Vec<String>,
) -> (res: Result<Vec<Edit>, ClipboardError>)
    requires
        can_run(
            edit_views(edits@),
            strs(file_lines@),
            old(clipboard)@,
            strs(old(warnings)@),
            on_empty_drop,
        ),
    ensures
        ({
            let run = clip_run(
                edit_views(edits@),
                strs(file_lines@),
                old(clipboard)@,
                strs(old(warnings)@),
                on_empty_drop,
            );
            &&& final(clipboard)@ == run.clip
            &&& strs(final(warnings)@) == run.warnings
            &&& match res {
                Ok(out) => run.error is None && edit_views(out@) == run.out,
                Err(e) => run.error == Some(e@),
            }
        }),
{
    let mut out: Vec<Edit> = Vec::new();
    let mut next: usize = 0;
    let mut i: usize = 0;
    let ghost all = edit_views(edits@);
    let ghost lines = strs(file_lines@);
    let ghost clip0 = clipboard@;
    let ghost warn0 = strs(warnings@);
    let ghost mut run = clip_run(all.take(0), lines, clip0, warn0, on_empty_drop);
    proof {
        assert(all.take(0) =~= seq![]);
        assert(edit_views(out@) =~= seq![]);
    }
    while i < edits.len()
        invariant
            i <= edits.len(),
            all == edit_views(edits@),
            lines == strs(file_lines@),
            clip0 == old(clipboard)@,
            warn0 == strs(old(warnings)@),
            can_run(all, lines, clip0, warn0, on_empty_drop),
            next <= out@.len(),
            run == clip_run(all.take(i as int), lines, clip0, warn0, on_empty_drop),
            run.error is None,
            run.clip == clipboard@,
            run.warnings == strs(warnings@),
            run.out == edit_views(out@),
            run.next == next,
        decreases edits.len() - i,
    {
        proof {
            lemma_run_step(all, i as int, lines, clip0, warn0, on_empty_drop);
            assert(all[i as int] == edits@[i as int]@);
            run = clip_run(all.take(i + 1), lines, clip0, warn0, on_empty_drop);
        }
        match resolve_clipboard_edit(
            &edits[i],
            file_lines,
            clipboard,
            on_empty_drop,
            warnings,
            &mut out,
            next,
        ) {
            Ok(n) => {
                next = n;
            },
            Err(e) => {
                return Err(e);
            },
        }
        i += 1;
    }
    proof {
        assert(all.take(i as int) =~= all);
    }
    Ok(out)
}

/// A run over one more edit.
proof fn lemma_run_step(
    edits: Seq<EditView>,
    i: int,
    lines: Seq<Seq<char>>,
    clip: ClipboardView,
    warnings: Seq<Seq<char>>,
    drop_empty: bool,
)
    requires
        0 <= i < edits.len(),
    ensures
        ({
            let next = clip_run(edits.take(i + 1), lines, clip, warnings, drop_empty);
            &&& next == clip_step(
                clip_run(edits.take(i), lines, clip, warnings, drop_empty),
                edits[i],
                lines,
                drop_empty,
            )
            &&& next.error is Some ==> next == clip_run(edits, lines, clip, warnings, drop_empty)
        }),
{
    assert(edits.take(i + 1).drop_last() =~= edits.take(i));
    assert(edits.take(i + 1).last() == edits[i]);
    if clip_run(edits.take(i + 1), lines, clip, warnings, drop_empty).error is Some {
        lemma_error_stays(edits, i + 1, lines, clip, warnings, drop_empty);
    }
}

/// A run that ended with a message keeps it, whatever follows.
proof fn lemma_error_stays(
    edits: Seq<EditView>,
    i: int,
    lines: Seq<Seq<char>>,
    clip: ClipboardView,
    warnings: Seq<Seq<char>>,
    drop_empty: bool,
)
    requires
        0 <= i <= edits.len(),
        clip_run(edits.take(i), lines, clip, warnings, drop_empty).error is Some,
    ensures
        clip_run(edits, lines, clip, warnings, drop_empty) == clip_run(
            edits.take(i),
            lines,
            clip,
            warnings,
            drop_empty,
        ),
    decreases edits.len(),
{
    if i < edits.len() {
        let front = edits.drop_last();
        assert(front.take(i) =~= edits.take(i));
        lemma_error_stays(front, i, lines, clip, warnings, drop_empty);
    } else {
        assert(edits.take(i) =~= edits);
    }
}

/// The clipboard that a batch of patches starts from: the named registers of `source`.
pub fn start_clipboard_batch(source: Option<&Clipboard>) -> (r: Clipboard)
    ensures
        r@ == (ClipboardView {
            named: match source {
                Some(c) => c@.named,
                None => Map::empty(),
            },
            ..empty_clipboard()
        }),
{
    let mut r = Clipboard::default();
    if let Some(c) = source {
        copy_registers(&c.named, &mut r.named);
        proof {
            assert(r@.named =~= c@.named);
        }
    }
    r
}

pub fn fork_clipboard(source: Option<&Clipboard>) -> (r: Clipboard)
    ensures
        r@ == match source {
            Some(c) => c@,
            None => empty_clipboard(),
        },
{
    match source {
        Some(c) => c.clone(),
        None => Clipboard::default(),
    }
}

/// Carry the named registers of `fork` over to `target`.
pub fn commit_clipboard(fork: &Clipboard, target: &mut Clipboard)
    ensures
        final(target)@ == (ClipboardView {
            named: old(target)@.named.union_prefer_right(fork@.named),
            ..old(target)@
        }),
{
    copy_registers(&fork.named, &mut target.named);
}

/// Whether every paste finds something to paste, without looking at any text.
pub fn validate_clipboard_sequence(edits: &[Edit], clipboard: &Clipboard) -> (res: Result<
    (),
    ClipboardError,
>)
    ensures
        match res {
            Ok(_) => validated(edit_views(edits@), clipboard@) is Ok,
            Err(e) => validated(edit_views(edits@), clipboard@) == Err::<
                ClipboardView,
                Seq<char>,
            >(e@),
        },
{
    let mut fork = fork_clipboard(Some(clipboard));
    let mut i: usize = 0;
    let ghost all = edit_views(edits@);
    proof {
        assert(all.take(0) =~= seq![]);
    }
    while i < edits.len()
        invariant
            i <= edits.len(),
            all == edit_views(edits@),
            validated(all.take(i as int), clipboard@) == Ok::<ClipboardView, Seq<char>>(fork@),
        decreases edits.len() - i,
    {
        let mut warnings: Vec<String> = Vec::new();
        proof {
            assert(strs(warnings@) =~= seq![]);
            assert(all.take(i + 1).drop_last() =~= all.take(i as int));
            assert(all.take(i + 1).last() == all[i as int]);
            if validated(all.take(i + 1), clipboard@) is Err {
                lemma_validated_error_stays(all, i + 1, clipboard@);
            }
        }
        match &edits[i] {
            Edit::Cut { range, register, .. } => {
                let none: Vec<String> = Vec::new();
                proof {
                    assert(strs(none@) =~= seq![]);
                }
                capture(*range, register, none, &mut fork);
            },
            Edit::Paste { at, register, line_num, .. } => {
                let over_span = match at {
                    PasteTarget::Gap { .. } => false,
                    PasteTarget::Span { .. } => true,
                };
                match read_register(
                    register,
                    over_span,
                    &mut fork,
                    *line_num,
                    false,
                    &mut warnings,
                ) {
                    Err(e) => {
                        return Err(e);
                    },
                    Ok(_) => {},
                }
            },
            _ => {},
        }
        i += 1;
    }
    proof {
        assert(all.take(i as int) =~= all);
    }
    Ok(())
}

proof fn lemma_validated_error_stays(edits: Seq<EditView>, i: int, clip: ClipboardView)
    requires
        0 <= i <= edits.len(),
        validated(edits.take(i), clip) is Err,
    ensures
        validated(edits, clip) == validated(edits.take(i), clip),
    decreases edits.len(),
{
    if i < edits.len() {
        let front = edits.drop_last();
        assert(front.take(i) =~= edits.take(i));
        lemma_validated_error_stays(front, i, clip);
    } else {
        assert(edits.take(i) =~= edits);
    }
}

} // verus!
