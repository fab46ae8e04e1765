//! What the registers hold while cuts and pastes are carried out, and what a paste comes to.

use crate::apply::{
    anchors_of, applied, law_insert_lines, law_replace_lines, phantom_line, replacing,
    without_deletes,
};
use crate::arrangement::{
    are_line_edits, law_edits_are_arranged, lemma_anchors_in_bounds, lemma_kept_without_deletes,
    lemma_no_stray, lemma_nothing_edited,
};
use crate::clipboard::{
    clip_run, cut_text, law_run_leaves_no_clipboard_edits, law_run_without_clipboard_edits,
};
use crate::text::{decimal, join_lines, law_join_of_lines, lines_of};
use crate::types::{inserts, ApplyView, ClipboardView, Cursor, EditView, ParsedRange, PasteTarget};
use vstd::prelude::*;

verus! {

/// Whether the edit cuts lines into the register.
pub open spec fn cuts_into(edit: EditView, register: Option<Seq<char>>) -> bool {
    edit matches EditView::Cut { register: r, .. } && r == register
}

/// Whether the edit pastes from the anonymous register.
pub open spec fn pastes_anonymous(edit: EditView) -> bool {
    edit matches EditView::Paste { register: None, .. }
}

/// What a register holds, if anything.
pub open spec fn held(clip: ClipboardView, register: Option<Seq<char>>) -> Option<Seq<Seq<char>>> {
    match register {
        Some(name) => if clip.named.contains_key(name) {
            Some(clip.named[name])
        } else {
            None
        },
        None => clip.lines,
    }
}

proof fn lemma_front_ran(
    edits: Seq<EditView>,
    lines: Seq<Seq<char>>,
    clip: ClipboardView,
    warnings: Seq<Seq<char>>,
    drop_empty: bool,
)
    requires
        edits.len() > 0,
        clip_run(edits, lines, clip, warnings, drop_empty).error is None,
    ensures
        clip_run(edits.drop_last(), lines, clip, warnings, drop_empty).error is None,
{
}

/// A register holds the lines of the last cut into it, whatever else was cut and pasted since, and
/// in whatever order.
pub proof fn law_register_holds_last_cut(
    edits: Seq<EditView>,
    lines: Seq<Seq<char>>,
    clip: ClipboardView,
    warnings: Seq<Seq<char>>,
    drop_empty: bool,
    register: Option<Seq<char>>,
    at: int,
)
    requires
        clip_run(edits, lines, clip, warnings, drop_empty).error is None,
        0 <= at < edits.len(),
        cuts_into(edits[at], register),
        forall|j: int| at < j < edits.len() ==> !cuts_into(#[trigger] edits[j], register),
    ensures
        ({
            let range = edits[at]->Cut_range;
            &&& 1 <= range.start.line && range.end.line <= lines.len()
            &&& held(clip_run(edits, lines, clip, warnings, drop_empty).clip, register) == Some(
                lines.subrange(range.start.line - 1, range.end.line as int),
            )
        }),
    decreases edits.len(),
{
    let front = edits.drop_last();
    lemma_front_ran(edits, lines, clip, warnings, drop_empty);
    if at < front.len() {
        assert forall|j: int| at < j < front.len() implies !cuts_into(
            #[trigger] front[j],
            register,
        ) by {
            assert(front[j] == edits[j]);
        }
        assert(front[at] == edits[at]);
        law_register_holds_last_cut(front, lines, clip, warnings, drop_empty, register, at);
        assert(!cuts_into(edits[edits.len() - 1], register));
    }
}

/// A register into which nothing was cut holds what it held.
pub proof fn law_register_without_cut_is_kept(
    edits: Seq<EditView>,
    lines: Seq<Seq<char>>,
    clip: ClipboardView,
    warnings: Seq<Seq<char>>,
    drop_empty: bool,
    register: Option<Seq<char>>,
)
    requires
        forall|j: int| 0 <= j < edits.len() ==> !cuts_into(#[trigger] edits[j], register),
    ensures
        held(clip_run(edits, lines, clip, warnings, drop_empty).clip, register) == held(
            clip,
            register,
        ),
    decreases edits.len(),
{
    if edits.len() > 0 {
        let front = edits.drop_last();
        assert forall|j: int| 0 <= j < front.len() implies !cuts_into(
            #[trigger] front[j],
            register,
        ) by {
            assert(front[j] == edits[j]);
        }
        law_register_without_cut_is_kept(front, lines, clip, warnings, drop_empty, register);
        assert(!cuts_into(edits[edits.len() - 1], register));
    }
}

/// The cuts into the anonymous register that wait for a paste are those since the last paste from
/// it.
pub proof fn law_pending_cuts_are_those_since_last_paste(
    edits: Seq<EditView>,
    lines: Seq<Seq<char>>,
    clip: ClipboardView,
    warnings: Seq<Seq<char>>,
    from: int,
)
    requires
        clip_run(edits, lines, clip, warnings, false).error is None,
        0 <= from <= edits.len(),
        from == 0 || pastes_anonymous(edits[from - 1]),
        forall|j: int| from <= j < edits.len() ==> !pastes_anonymous(#[trigger] edits[j]),
    ensures
        clip_run(edits, lines, clip, warnings, false).clip.pending.len() == edits.skip(
            from,
        ).filter(|e: EditView| cuts_into(e, None)).len() + if from == 0 {
            clip.pending.len()
        } else {
            0
        },
    decreases edits.len(),
{
    reveal(Seq::filter);
    let rest = edits.skip(from);
    if edits.len() > 0 {
        let front = edits.drop_last();
        lemma_front_ran(edits, lines, clip, warnings, false);
        if from < edits.len() {
            assert forall|j: int| from <= j < front.len() implies !pastes_anonymous(
                #[trigger] front[j],
            ) by {
                assert(front[j] == edits[j]);
            }
            if from > 0 {
                assert(front[from - 1] == edits[from - 1]);
            }
            law_pending_cuts_are_those_since_last_paste(front, lines, clip, warnings, from);
            assert(rest.drop_last() =~= front.skip(from));
            assert(rest.last() == edits.last());
            assert(!pastes_anonymous(edits[edits.len() - 1]));
        } else {
            assert(edits.last() == edits[from - 1]);
            assert(rest =~= seq![]);
        }
    } else {
        assert(rest =~= seq![]);
    }
}

/// Whether a paste from the register finds something to paste. The anonymous register must not have
/// more than one cut that waits for a paste.
pub open spec fn can_paste(clip: ClipboardView, register: Option<Seq<char>>) -> bool {
    held(clip, register) is Some && (register is None ==> clip.pending.len() <= 1)
}

/// A paste comes to what its register holds: inserted into its gap, or in place of the lines of its
/// span. The registers keep what they hold, and no cut waits for a paste from the anonymous
/// register once there was one.
pub proof fn law_paste_comes_to_register(
    edits: Seq<EditView>,
    lines: Seq<Seq<char>>,
    clip: ClipboardView,
    warnings: Seq<Seq<char>>,
    drop_empty: bool,
    at: PasteTarget,
    register: Option<Seq<char>>,
    line_num: nat,
    index: nat,
    block_start: Option<usize>,
)
    requires
        clip_run(edits, lines, clip, warnings, drop_empty).error is None,
        can_paste(clip_run(edits, lines, clip, warnings, drop_empty).clip, register),
        at matches PasteTarget::Span { range } ==> 1 <= range.start.line && range.end.line
            <= lines.len(),
    ensures
        ({
            let before = clip_run(edits, lines, clip, warnings, drop_empty);
            let texts = held(before.clip, register)->0;
            let paste = EditView::Paste { at, register, line_num, index, block_start };
            let after = clip_run(edits.push(paste), lines, clip, warnings, drop_empty);
            let new = match at {
                PasteTarget::Gap { cursor } => inserts(
                    texts,
                    cursor,
                    line_num,
                    before.next,
                    false,
                    block_start,
                ),
                PasteTarget::Span { range } => replacing(
                    range.start.line,
                    range.end.line,
                    texts,
                    line_num,
                    before.next,
                ),
            };
            &&& after.error is None
            &&& after.out == before.out + new
            &&& after.next == before.next + new.len()
            &&& after.warnings == before.warnings
            &&& after.clip.named == before.clip.named
            &&& after.clip.lines == before.clip.lines
            &&& after.clip.pending == if register is None {
                seq![]
            } else {
                before.clip.pending
            }
        }),
{
    let before = clip_run(edits, lines, clip, warnings, drop_empty);
    let paste = EditView::Paste { at, register, line_num, index, block_start };
    let more = edits.push(paste);
    assert(more.drop_last() =~= edits);
    let after = clip_run(more, lines, clip, warnings, drop_empty);
    let texts = held(before.clip, register)->0;
    if let PasteTarget::Span { range } = at {
        assert(after.out =~= before.out + replacing(
            range.start.line,
            range.end.line,
            texts,
            line_num,
            before.next,
        ));
    }
}

/// A paste that finds nothing is refused, or dropped where that is asked for: from the anonymous
/// register where more than one cut waits or where it is empty, and over a span from a named
/// register that is empty. Into a gap an empty named register pastes nothing, with a warning.
pub proof fn law_paste_of_nothing(
    edits: Seq<EditView>,
    lines: Seq<Seq<char>>,
    clip: ClipboardView,
    warnings: Seq<Seq<char>>,
    drop_empty: bool,
    at: PasteTarget,
    register: Option<Seq<char>>,
    line_num: nat,
    index: nat,
    block_start: Option<usize>,
)
    requires
        clip_run(edits, lines, clip, warnings, drop_empty).error is None,
        !can_paste(clip_run(edits, lines, clip, warnings, drop_empty).clip, register),
    ensures
        ({
            let before = clip_run(edits, lines, clip, warnings, drop_empty);
            let paste = EditView::Paste { at, register, line_num, index, block_start };
            let after = clip_run(edits.push(paste), lines, clip, warnings, drop_empty);
            let line = "line "@ + decimal(line_num) + ": "@;
            &&& after.out == before.out
            &&& after.clip == before.clip
            &&& if drop_empty {
                after.error is None && after.warnings == before.warnings
            } else {
                match register {
                    Some(name) => if at is Gap {
                        after.error is None && after.warnings == before.warnings.push(
                            line + "named register @"@ + name + " is empty; pasting nothing"@,
                        )
                    } else {
                        after.error == Some(
                            line + "named register @"@ + name
                                + " is empty; cannot paste over a span"@,
                        )
                    },
                    None => if before.clip.pending.len() > 1 {
                        after.error == Some(
                            line + "ambiguous unlabeled paste; "@ + decimal(
                                before.clip.pending.len(),
                            ) + " pending anonymous CUTs"@,
                        )
                    } else {
                        after.error == Some(
                            line + "unlabeled paste with empty anonymous register"@,
                        )
                    },
                }
            }
        }),
{
    let before = clip_run(edits, lines, clip, warnings, drop_empty);
    let paste = EditView::Paste { at, register, line_num, index, block_start };
    let more = edits.push(paste);
    assert(more.drop_last() =~= edits);
    let after = clip_run(more, lines, clip, warnings, drop_empty);
    assert(after.out =~= before.out);
}

/// A cut leaves no edit behind and takes the lines of its range, which must lie in the text, into
/// its register. All other edits stay as they are, and leave the registers alone.
pub proof fn law_cut_and_other_edits(
    edits: Seq<EditView>,
    lines: Seq<Seq<char>>,
    clip: ClipboardView,
    warnings: Seq<Seq<char>>,
    drop_empty: bool,
    edit: EditView,
)
    requires
        clip_run(edits, lines, clip, warnings, drop_empty).error is None,
        !(edit is Paste),
    ensures
        ({
            let before = clip_run(edits, lines, clip, warnings, drop_empty);
            let after = clip_run(edits.push(edit), lines, clip, warnings, drop_empty);
            &&& after.warnings == before.warnings
            &&& match edit {
                EditView::Cut { range, register, line_num, .. } => {
                    &&& after.out == before.out
                    &&& after.error is Some <==> range.start.line < 1 || range.end.line
                        > lines.len()
                    &&& after.error is Some ==> after.clip == before.clip
                    &&& after.error is None ==> held(after.clip, register) == Some(
                        lines.subrange(range.start.line - 1, range.end.line as int),
                    )
                    &&& forall|other: Option<Seq<char>>|
                        other != register ==> #[trigger] held(after.clip, other) == held(
                            before.clip,
                            other,
                        )
                    &&& after.clip.pending.len() == before.clip.pending.len() + if register is None
                        && after.error is None {
                        1int
                    } else {
                        0
                    }
                },
                _ => after.error is None && after.out == before.out.push(edit) && after.clip
                    == before.clip,
            }
        }),
{
    let more = edits.push(edit);
    assert(more.drop_last() =~= edits);
}

/// A cut or a paste over a span that does not lie in the text is refused.
#[verifier::rlimit(40)]
pub proof fn law_ranges_outside_are_refused(
    edits: Seq<EditView>,
    lines: Seq<Seq<char>>,
    clip: ClipboardView,
    warnings: Seq<Seq<char>>,
    drop_empty: bool,
    range: ParsedRange,
    register: Option<Seq<char>>,
    line_num: nat,
    index: nat,
    block_start: Option<usize>,
)
    requires
        clip_run(edits, lines, clip, warnings, drop_empty).error is None,
        range.start.line < 1 || range.end.line > lines.len(),
    ensures
        ({
            let before = clip_run(edits, lines, clip, warnings, drop_empty);
            let cut = EditView::Cut { range, register, line_num, index };
            let at = PasteTarget::Span { range };
            let paste = EditView::Paste { at, register, line_num, index, block_start };
            let cutting = clip_run(edits.push(cut), lines, clip, warnings, drop_empty);
            let pasting = clip_run(edits.push(paste), lines, clip, warnings, drop_empty);
            let line = "line "@ + decimal(line_num) + ": "@;
            let outside = " is out of range (file has "@ + decimal(lines.len()) + " lines)."@;
            &&& cutting.error == Some(
                line + ("`"@ + ("CUT "@ + decimal(range.start.line as nat) + "=.="@ + decimal(
                    range.end.line as nat,
                ) + match register {
                    Some(name) => " @"@ + name,
                    None => seq![],
                }) + "`"@) + outside,
            )
            &&& can_paste(before.clip, register) ==> pasting.error == Some(
                line + "span paste"@ + outside,
            )
        }),
{
    let cut = EditView::Cut { range, register, line_num, index };
    let at = PasteTarget::Span { range };
    let paste = EditView::Paste { at, register, line_num, index, block_start };
    assert(edits.push(cut).drop_last() =~= edits);
    assert(edits.push(paste).drop_last() =~= edits);
    let line = "line "@ + decimal(line_num) + ": "@;
    let a = " is out of range (file has "@;
    let n = decimal(lines.len());
    let c = " lines)."@;
    let lines_cut = "CUT "@ + decimal(range.start.line as nat) + "=.="@ + decimal(
        range.end.line as nat,
    );
    let name = match register {
        Some(name) => " @"@ + name,
        None => seq![],
    };
    assert(lines_cut + name =~= cut_text(range, register));
    let what = "`"@ + cut_text(range, register) + "`"@;
    assert(line + what + a + n + c =~= line + what + (a + n + c));
    assert(line + "span paste"@ + a + n + c =~= line + "span paste"@ + (a + n + c));
}

/// Once an edit was refused, the rest changes nothing: the message of the first refusal stands.
pub proof fn law_first_refusal_stands(
    edits: Seq<EditView>,
    lines: Seq<Seq<char>>,
    clip: ClipboardView,
    warnings: Seq<Seq<char>>,
    drop_empty: bool,
    n: int,
)
    requires
        0 <= n <= edits.len(),
        clip_run(edits.take(n), lines, clip, warnings, drop_empty).error is Some,
    ensures
        clip_run(edits, lines, clip, warnings, drop_empty) == clip_run(
            edits.take(n),
            lines,
            clip,
            warnings,
            drop_empty,
        ),
    decreases edits.len(),
{
    if n < edits.len() {
        assert(edits.drop_last().take(n) =~= edits.take(n));
        law_first_refusal_stands(edits.drop_last(), lines, clip, warnings, drop_empty, n);
    } else {
        assert(edits.take(n) =~= edits);
    }
}

// ---------------------------------------------------------------------------------------------
// On a text

/// A paste of what a register holds puts those lines into its gap of the text, or in place of the
/// lines of its span. Lines before and after are kept. The empty line behind a final line feed
/// stays.
pub proof fn law_paste_into_text(
    text: Seq<char>,
    clip: ClipboardView,
    at: PasteTarget,
    register: Option<Seq<char>>,
    line_num: nat,
    index: nat,
    block_start: Option<usize>,
)
    requires
        can_paste(clip, register),
        match at {
            PasteTarget::Gap { cursor } => match cursor {
                Cursor::BeforeAnchor { anchor } => 1 <= anchor.line <= lines_of(text).len(),
                Cursor::AfterAnchor { anchor } => 1 <= anchor.line <= lines_of(text).len(),
                _ => true,
            },
            PasteTarget::Span { range } => 1 <= range.start.line <= range.end.line <= lines_of(
                text,
            ).len(),
        },
    ensures
        ({
            let lines = lines_of(text);
            let texts = held(clip, register)->0;
            let paste = EditView::Paste { at, register, line_num, index, block_start };
            let (first, last) = match at {
                PasteTarget::Gap { cursor } => match cursor {
                    Cursor::Bof => (0int, 0int),
                    Cursor::Eof => (lines.len() as int, lines.len() as int),
                    Cursor::BeforeAnchor { anchor } => (anchor.line - 1, anchor.line - 1),
                    Cursor::AfterAnchor { anchor } => (anchor.line as int, anchor.line as int),
                },
                PasteTarget::Span { range } => (
                    range.start.line - 1,
                    if range.end.line == lines.len() && lines.len() > 1 && lines.last().len()
                        == 0 {
                        range.end.line - 1
                    } else {
                        range.end.line as int
                    },
                ),
            };
            &&& applied(text, seq![paste], clip).0 is Ok
            &&& applied(text, seq![paste], clip).0->Ok_0.text == join_lines(
                lines.take(first) + texts + lines.skip(last),
            )
        }),
{
    let lines = lines_of(text);
    let texts = held(clip, register)->0;
    let paste = EditView::Paste { at, register, line_num, index, block_start };
    let none = Seq::<EditView>::empty();
    assert(none.push(paste) =~= seq![paste]);
    law_paste_comes_to_register(
        none,
        lines,
        clip,
        seq![],
        false,
        at,
        register,
        line_num,
        index,
        block_start,
    );
    let run = clip_run(seq![paste], lines, clip, seq![], false);
    let phantom = phantom_line(lines);
    match at {
        PasteTarget::Gap { cursor } => {
            let out = inserts(texts, cursor, line_num, 0, false, block_start);
            assert(run.out =~= out);
            lemma_kept_without_deletes(out, phantom);
            lemma_anchors_in_bounds(out, lines.len());
            lemma_no_stray(anchors_of(out), lines.len());
            law_insert_lines(lines, cursor, texts, line_num, 0, block_start);
        },
        PasteTarget::Span { range } => {
            let a = range.start.line;
            let b = range.end.line;
            let out = replacing(a, b, texts, line_num, 0);
            assert(run.out =~= out);
            assert(are_line_edits(out, lines.len()));
            if b == phantom {
                let few = replacing(a, (b - 1) as usize, texts, line_num, 0);
                lemma_replacing_without_phantom(a, b, texts, line_num, 0);
                assert(are_line_edits(few, lines.len()));
                lemma_anchors_in_bounds(few, lines.len());
                lemma_no_stray(anchors_of(few), lines.len());
                law_replace_lines(lines, a, (b - 1) as usize, texts, line_num, 0);
            } else {
                lemma_kept_without_deletes(out, phantom);
                lemma_anchors_in_bounds(out, lines.len());
                lemma_no_stray(anchors_of(out), lines.len());
                law_replace_lines(lines, a, b, texts, line_num, 0);
            }
        },
    }
}

proof fn lemma_replacing_without_phantom(
    a: usize,
    b: usize,
    texts: Seq<Seq<char>>,
    line_num: nat,
    index: nat,
)
    requires
        1 <= a <= b,
    ensures
        without_deletes(replacing(a, b, texts, line_num, index), b as nat) == replacing(
            a,
            (b - 1) as usize,
            texts,
            line_num,
            index,
        ),
{
    let out = replacing(a, b, texts, line_num, index);
    let few = replacing(a, (b - 1) as usize, texts, line_num, index);
    assert(out.drop_last() =~= few);
    assert(out.last() is Delete);
    lemma_kept_without_deletes(few, b as nat);
}

/// Edits with cuts and pastes among them make of a text what the edits make of it that they come
/// to. The registers and the warnings are those of the run, and a refusal in the run refuses them
/// all.
pub proof fn law_edits_apply_as_they_run(text: Seq<char>, edits: Seq<EditView>, clip: ClipboardView)
    ensures
        ({
            let run = clip_run(edits, lines_of(text), clip, seq![], false);
            let (result, after) = applied(text, edits, clip);
            &&& after == run.clip
            &&& match run.error {
                Some(message) => result == Err::<ApplyView, Seq<char>>(message),
                None => match applied(text, run.out, clip).0 {
                    Err(message) => result == Err::<ApplyView, Seq<char>>(message),
                    Ok(view) => result matches Ok(done) && done.text == view.text
                        && done.first_changed_line == view.first_changed_line && done.warnings
                        == run.warnings,
                },
            }
        }),
{
    let lines = lines_of(text);
    let run = clip_run(edits, lines, clip, seq![], false);
    law_run_leaves_no_clipboard_edits(edits, lines, clip, seq![], false);
    law_run_without_clipboard_edits(run.out, lines, clip, seq![], false);
    if run.out.len() == 0 && edits.len() > 0 && run.error is None {
        law_edits_are_arranged(text, run.out, clip);
        lemma_kept_without_deletes(run.out, phantom_line(lines));
        lemma_nothing_edited(lines, run.out);
        law_join_of_lines(text);
        assert(anchors_of(run.out) =~= seq![]);
    }
}

} // verus!
