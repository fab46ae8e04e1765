//! Apply parsed edits to a text body.

use crate::clipboard::{
    can_run, clip_run, is_clip_edit, law_run_leaves_no_clipboard_edits, resolve_clipboard_edits,
};
use crate::text::{
    chars_of, decimal, join_lines, join_text, lines_of, push_decimal, split_lines, strs,
};
use crate::types::{
    deletes, edit_views, empty_clipboard, inserts, push_strings, Anchor, ApplyResult, ApplyView,
    Clipboard, ClipboardView, Cursor, Edit, EditView,
};
use vstd::prelude::*;

verus! {

#[derive(Debug)]
pub enum ApplyError {
    Message(String),
}

impl View for ApplyError {
    type V = Seq<char>;

    open spec fn view(&self) -> Seq<char> {
        match self {
            ApplyError::Message(m) => m@,
        }
    }
}

impl ApplyError {
    pub fn message(&self) -> (m: String)
        ensures
            m@ == self@,
    {
        match self {
            ApplyError::Message(m) => m.clone(),
        }
    }
}

// ---------------------------------------------------------------------------------------------
// Model

/// Where inserted text ends up. Lines are those of the original text, counted from one.
pub enum Place {
    Head,
    Before(nat),
    Instead(nat),
    After(nat),
    Tail,
}

/// The place of an insertion. Text that replaces a line follows what is inserted before that line.
pub open spec fn place_of(edit: EditView) -> Option<Place> {
    match edit {
        EditView::Insert { cursor, replacement, .. } => Some(
            match cursor {
                Cursor::Bof => Place::Head,
                Cursor::Eof => Place::Tail,
                Cursor::BeforeAnchor { anchor } => if replacement {
                    Place::Instead(anchor.line as nat)
                } else {
                    Place::Before(anchor.line as nat)
                },
                Cursor::AfterAnchor { anchor } => if replacement {
                    Place::Instead(anchor.line as nat)
                } else {
                    Place::After(anchor.line as nat)
                },
            },
        ),
        _ => None,
    }
}

/// What the edits insert at a place, in the order of the edits.
pub open spec fn texts_at(edits: Seq<EditView>, place: Place) -> Seq<Seq<char>>
    decreases edits.len(),
{
    if edits.len() == 0 {
        seq![]
    } else {
        let front = texts_at(edits.drop_last(), place);
        if place_of(edits.last()) == Some(place) {
            front.push(edits.last()->Insert_text)
        } else {
            front
        }
    }
}

pub open spec fn deletes_line(edit: EditView, line: nat) -> bool {
    edit is Delete && edit->Delete_anchor.line == line
}

/// What the edits do at one line of the original text.
#[verifier::ext_equal]
pub struct LineEditsView {
    pub before: Seq<Seq<char>>,
    pub instead: Seq<Seq<char>>,
    pub after: Seq<Seq<char>>,
    pub deleted: bool,
}

pub open spec fn line_edits(edits: Seq<EditView>, line: nat) -> LineEditsView {
    LineEditsView {
        before: texts_at(edits, Place::Before(line)),
        instead: texts_at(edits, Place::Instead(line)),
        after: texts_at(edits, Place::After(line)),
        deleted: exists|i: int| 0 <= i < edits.len() && deletes_line(#[trigger] edits[i], line),
    }
}

impl LineEditsView {
    pub open spec fn is_empty(self) -> bool {
        self.before.len() == 0 && self.instead.len() == 0 && self.after.len() == 0 && !self.deleted
    }

    /// The lines that stand in the result for a line of the original text.
    pub open spec fn rewrite(self, line: Seq<char>) -> Seq<Seq<char>> {
        self.before + self.instead + (if self.deleted {
            seq![]
        } else {
            seq![line]
        }) + self.after
    }
}

/// What stands in the result for the first `count` lines.
pub open spec fn rewritten(lines: Seq<Seq<char>>, edits: Seq<EditView>, count: nat) -> Seq<
    Seq<char>,
>
    decreases count,
{
    if count == 0 {
        seq![]
    } else {
        rewritten(lines, edits, (count - 1) as nat) + line_edits(edits, count).rewrite(
            lines[count - 1],
        )
    }
}

/// The lines of the result.
pub open spec fn edited_lines(lines: Seq<Seq<char>>, edits: Seq<EditView>) -> Seq<Seq<char>> {
    texts_at(edits, Place::Head) + rewritten(lines, edits, lines.len()) + texts_at(
        edits,
        Place::Tail,
    )
}

/// The first of the lines up to `count` that an edit names.
pub open spec fn first_touched(edits: Seq<EditView>, count: nat) -> Option<nat>
    decreases count,
{
    if count == 0 {
        None
    } else {
        match first_touched(edits, (count - 1) as nat) {
            Some(line) => Some(line),
            None => if line_edits(edits, count).is_empty() {
                None
            } else {
                Some(count)
            },
        }
    }
}

/// The first line of the result that may differ from the original.
pub open spec fn first_changed(edits: Seq<EditView>, count: nat) -> Option<nat> {
    if texts_at(edits, Place::Head).len() > 0 {
        Some(1)
    } else {
        match first_touched(edits, count) {
            Some(line) => Some(line),
            None => if texts_at(edits, Place::Tail).len() > 0 {
                Some(count + 1)
            } else {
                None
            },
        }
    }
}

/// The number of the empty line after a final line feed, or zero.
pub open spec fn phantom_line(lines: Seq<Seq<char>>) -> nat {
    if lines.len() > 1 && lines.last().len() == 0 {
        lines.len()
    } else {
        0
    }
}

/// The edits without deletions of the line `phantom`.
pub open spec fn without_deletes(edits: Seq<EditView>, phantom: nat) -> Seq<EditView>
    decreases edits.len(),
{
    if edits.len() == 0 {
        seq![]
    } else {
        let front = without_deletes(edits.drop_last(), phantom);
        if phantom != 0 && deletes_line(edits.last(), phantom) {
            front
        } else {
            front.push(edits.last())
        }
    }
}

/// The lines that the edits name, in order.
pub open spec fn anchors_of(edits: Seq<EditView>) -> Seq<Anchor>
    decreases edits.len(),
{
    if edits.len() == 0 {
        seq![]
    } else {
        anchors_of(edits.drop_last()) + edits.last().anchors()
    }
}

/// The first anchor that is no line of a text of `count` lines.
pub open spec fn first_stray(anchors: Seq<Anchor>, count: nat) -> Option<Anchor>
    decreases anchors.len(),
{
    if anchors.len() == 0 {
        None
    } else {
        match first_stray(anchors.drop_last(), count) {
            Some(a) => Some(a),
            None => if 1 <= anchors.last().line <= count {
                None
            } else {
                Some(anchors.last())
            },
        }
    }
}

pub open spec fn missing_line(line: nat, count: nat) -> Seq<char> {
    "Line "@ + decimal(line) + " does not exist (file has "@ + decimal(count) + " lines)"@
}

/// The result of edits among which no cut, paste or block is left.
pub open spec fn materialized(lines: Seq<Seq<char>>, edits: Seq<EditView>) -> ApplyView {
    ApplyView {
        text: join_lines(edited_lines(lines, edits)),
        first_changed_line: first_changed(edits, lines.len()),
        warnings: seq![],
        block_resolutions: seq![],
    }
}

/// What applying edits that the clipboard has resolved comes to.
pub open spec fn applied_concrete(lines: Seq<Seq<char>>, edits: Seq<EditView>) -> Result<
    ApplyView,
    Seq<char>,
> {
    if exists|i: int| 0 <= i < edits.len() && (#[trigger] edits[i]) is Block {
        Err("unresolved block edit reached the applier"@)
    } else {
        let target = without_deletes(edits, phantom_line(lines));
        match first_stray(anchors_of(target), lines.len()) {
            Some(a) => Err(missing_line(a.line as nat, lines.len())),
            None => Ok(materialized(lines, target)),
        }
    }
}

/// What applying edits comes to, and the clipboard afterwards.
pub open spec fn applied(text: Seq<char>, edits: Seq<EditView>, clip: ClipboardView) -> (
    Result<ApplyView, Seq<char>>,
    ClipboardView,
) {
    if edits.len() == 0 {
        (
            Ok(
                ApplyView {
                    text,
                    first_changed_line: None,
                    warnings: seq![],
                    block_resolutions: seq![],
                },
            ),
            clip,
        )
    } else {
        let lines = lines_of(text);
        let run = clip_run(edits, lines, clip, seq![], false);
        (
            match run.error {
                Some(message) => Err(message),
                None => match applied_concrete(lines, run.out) {
                    Err(message) => Err(message),
                    Ok(result) => Ok(ApplyView { warnings: run.warnings, ..result }),
                },
            },
            run.clip,
        )
    }
}

/// Every cut that applying the edits reaches can be captured.
pub open spec fn can_apply(text: Seq<char>, edits: Seq<EditView>, clip: ClipboardView) -> bool {
    can_run(edits, lines_of(text), clip, seq![], false)
}

// ---------------------------------------------------------------------------------------------
// Laws

/// Without edits at a line, that line stands for itself.
proof fn lemma_empty_rewrite(edits: LineEditsView, line: Seq<char>)
    requires
        edits.is_empty(),
    ensures
        edits.rewrite(line) == seq![line],
{
    assert(edits.rewrite(line) =~= seq![line]);
}

/// Up to the first touched line, the lines stand for themselves.
proof fn lemma_rewritten_front(lines: Seq<Seq<char>>, edits: Seq<EditView>, count: nat)
    requires
        count <= lines.len(),
    ensures
        match first_touched(edits, count) {
            None => rewritten(lines, edits, count) == lines.take(count as int),
            Some(n) => 1 <= n <= count && n - 1 <= rewritten(lines, edits, count).len()
                && rewritten(lines, edits, count).take(n - 1) == lines.take(n - 1),
        },
    decreases count,
{
    if count > 0 {
        let less = (count - 1) as nat;
        lemma_rewritten_front(lines, edits, less);
        let now = line_edits(edits, count);
        match first_touched(edits, less) {
            None => {
                if now.is_empty() {
                    lemma_empty_rewrite(now, lines[count - 1]);
                    assert(lines.take(count as int) =~= lines.take(less as int).push(
                        lines[count - 1],
                    ));
                } else {
                    assert(rewritten(lines, edits, count).take(less as int) =~= lines.take(
                        less as int,
                    ));
                }
            },
            Some(n) => {
                assert(rewritten(lines, edits, count).take(n - 1) =~= rewritten(
                    lines,
                    edits,
                    less,
                ).take(n - 1));
            },
        }
    } else {
        assert(rewritten(lines, edits, 0) =~= lines.take(0));
    }
}

/// Every line of the result before the first changed line is the line of the original text with
/// that number; where no line is reported as changed, the whole text is kept.
pub proof fn law_lines_before_first_change_are_kept(lines: Seq<Seq<char>>, edits: Seq<EditView>)
    ensures
        match first_changed(edits, lines.len()) {
            None => edited_lines(lines, edits) == lines,
            Some(n) => 1 <= n <= lines.len() + 1 && n - 1 <= edited_lines(lines, edits).len()
                && edited_lines(lines, edits).take(n - 1) == lines.take(n - 1),
        },
{
    lemma_rewritten_front(lines, edits, lines.len());
    let out = edited_lines(lines, edits);
    assert(lines.take(lines.len() as int) =~= lines);
    match first_changed(edits, lines.len()) {
        None => {
            assert(out =~= lines);
        },
        Some(n) => {
            if texts_at(edits, Place::Head).len() == 0 {
                assert(out.take(n - 1) =~= rewritten(lines, edits, lines.len()).take(n - 1));
            } else {
                assert(out.take(0) =~= lines.take(0));
            }
        },
    }
}

/// Lines after the last one that an edit touches are kept, and stand between what was made of the
/// lines before them and what was inserted at the tail.
pub proof fn law_lines_after_last_edit_are_kept(
    lines: Seq<Seq<char>>,
    edits: Seq<EditView>,
    last: nat,
)
    requires
        last <= lines.len(),
        forall|n: nat| last < n <= lines.len() ==> (#[trigger] line_edits(edits, n)).is_empty(),
    ensures
        edited_lines(lines, edits) == texts_at(edits, Place::Head) + rewritten(lines, edits, last)
            + lines.skip(last as int) + texts_at(edits, Place::Tail),
{
    lemma_rewritten_back(lines, edits, last, lines.len());
    assert(lines.subrange(last as int, lines.len() as int) =~= lines.skip(last as int));
    assert(edited_lines(lines, edits) =~= texts_at(edits, Place::Head) + rewritten(
        lines,
        edits,
        last,
    ) + lines.skip(last as int) + texts_at(edits, Place::Tail));
}

proof fn lemma_rewritten_back(
    lines: Seq<Seq<char>>,
    edits: Seq<EditView>,
    last: nat,
    count: nat,
)
    requires
        last <= count <= lines.len(),
        forall|n: nat| last < n <= count ==> (#[trigger] line_edits(edits, n)).is_empty(),
    ensures
        rewritten(lines, edits, count) == rewritten(lines, edits, last) + lines.subrange(
            last as int,
            count as int,
        ),
    decreases count,
{
    if last < count {
        lemma_rewritten_back(lines, edits, last, (count - 1) as nat);
        lemma_empty_rewrite(line_edits(edits, count), lines[count - 1]);
        assert(rewritten(lines, edits, count) =~= rewritten(lines, edits, last) + lines.subrange(
            last as int,
            count as int,
        ));
    } else {
        assert(rewritten(lines, edits, count) =~= rewritten(lines, edits, last) + lines.subrange(
            last as int,
            count as int,
        ));
    }
}

proof fn lemma_texts_concat(a: Seq<EditView>, b: Seq<EditView>, place: Place)
    ensures
        texts_at(a + b, place) == texts_at(a, place) + texts_at(b, place),
    decreases b.len(),
{
    if b.len() == 0 {
        assert(a + b =~= a);
        assert(texts_at(a, place) + seq![] =~= texts_at(a, place));
    } else {
        lemma_texts_concat(a, b.drop_last(), place);
        assert((a + b).drop_last() =~= a + b.drop_last());
        assert(texts_at(a + b, place) =~= texts_at(a, place) + texts_at(b, place));
    }
}

proof fn lemma_texts_of_inserts(
    texts: Seq<Seq<char>>,
    cursor: Cursor,
    line_num: nat,
    index: nat,
    replacement: bool,
    block_start: Option<usize>,
    place: Place,
)
    ensures
        ({
            let edits = inserts(texts, cursor, line_num, index, replacement, block_start);
            let here = EditView::Insert {
                cursor,
                text: seq![],
                line_num,
                index,
                replacement,
                block_start,
            };
            texts_at(edits, place) == if place_of(here) == Some(place) {
                texts
            } else {
                seq![]
            }
        }),
    decreases texts.len(),
{
    let edits = inserts(texts, cursor, line_num, index, replacement, block_start);
    if texts.len() > 0 {
        lemma_texts_of_inserts(
            texts.drop_last(),
            cursor,
            line_num,
            index,
            replacement,
            block_start,
            place,
        );
        assert(edits.drop_last() =~= inserts(
            texts.drop_last(),
            cursor,
            line_num,
            index,
            replacement,
            block_start,
        ));
        assert(texts =~= texts.drop_last().push(texts.last()));
    } else {
        assert(texts =~= seq![]);
    }
}

proof fn lemma_texts_without_inserts(edits: Seq<EditView>, place: Place)
    requires
        forall|i: int| 0 <= i < edits.len() ==> !((#[trigger] edits[i]) is Insert),
    ensures
        texts_at(edits, place) == Seq::<Seq<char>>::empty(),
    decreases edits.len(),
{
    if edits.len() > 0 {
        assert forall|i: int| 0 <= i < edits.drop_last().len() implies !((
        #[trigger] edits.drop_last()[i]) is Insert) by {
            assert(edits.drop_last()[i] == edits[i]);
        }
        lemma_texts_without_inserts(edits.drop_last(), place);
        assert(edits.last() == edits[edits.len() - 1]);
    }
}

/// The edits that replace the lines `first` to `last` by `texts`.
pub open spec fn replacing(
    first: usize,
    last: usize,
    texts: Seq<Seq<char>>,
    line_num: nat,
    index: nat,
) -> Seq<EditView> {
    inserts(
        texts,
        Cursor::BeforeAnchor { anchor: Anchor { line: first } },
        line_num,
        index,
        true,
        None,
    ) + deletes(first, last, line_num, index + texts.len())
}

proof fn lemma_line_edits_of_replacing(
    first: usize,
    last: usize,
    texts: Seq<Seq<char>>,
    line_num: nat,
    index: nat,
    line: nat,
)
    requires
        first <= last + 1,
    ensures
        line_edits(replacing(first, last, texts, line_num, index), line) == (LineEditsView {
            before: seq![],
            instead: if line == first {
                texts
            } else {
                seq![]
            },
            after: seq![],
            deleted: first <= line <= last,
        }),
{
    let cursor = Cursor::BeforeAnchor { anchor: Anchor { line: first } };
    let a = inserts(texts, cursor, line_num, index, true, None);
    let b = deletes(first, last, line_num, index + texts.len());
    lemma_texts_concat(a, b, Place::Before(line));
    lemma_texts_concat(a, b, Place::Instead(line));
    lemma_texts_concat(a, b, Place::After(line));
    lemma_texts_of_inserts(texts, cursor, line_num, index, true, None, Place::Before(line));
    lemma_texts_of_inserts(texts, cursor, line_num, index, true, None, Place::Instead(line));
    lemma_texts_of_inserts(texts, cursor, line_num, index, true, None, Place::After(line));
    lemma_texts_without_inserts(b, Place::Before(line));
    lemma_texts_without_inserts(b, Place::Instead(line));
    lemma_texts_without_inserts(b, Place::After(line));
    let edits = a + b;
    assert(texts + seq![] =~= texts);
    if first <= line <= last {
        let k = a.len() + (line - first);
        assert(deletes_line(edits[k], line));
    }
    assert(line_edits(edits, line) =~= (LineEditsView {
        before: seq![],
        instead: if line == first {
            texts
        } else {
            seq![]
        },
        after: seq![],
        deleted: first <= line <= last,
    }));
}

proof fn lemma_rewritten_replacing(
    lines: Seq<Seq<char>>,
    first: usize,
    last: usize,
    texts: Seq<Seq<char>>,
    line_num: nat,
    index: nat,
    count: nat,
)
    requires
        1 <= first <= last,
        count <= last,
        last <= lines.len(),
    ensures
        rewritten(lines, replacing(first, last, texts, line_num, index), count) == if count
            < first {
            lines.take(count as int)
        } else {
            lines.take(first - 1) + texts
        },
    decreases count,
{
    let edits = replacing(first, last, texts, line_num, index);
    if count > 0 {
        lemma_rewritten_replacing(
            lines,
            first,
            last,
            texts,
            line_num,
            index,
            (count - 1) as nat,
        );
        lemma_line_edits_of_replacing(first, last, texts, line_num, index, count);
        if count < first {
            assert(rewritten(lines, edits, count) =~= lines.take(count as int));
        } else {
            assert(rewritten(lines, edits, count) =~= lines.take(first - 1) + texts);
        }
    } else {
        assert(rewritten(lines, edits, count) =~= lines.take(0));
    }
}

proof fn lemma_rewritten_inserting(
    lines: Seq<Seq<char>>,
    first: usize,
    last: usize,
    texts: Seq<Seq<char>>,
    line_num: nat,
    index: nat,
    count: nat,
)
    requires
        first == last + 1,
        count <= last,
        last <= lines.len(),
    ensures
        rewritten(lines, replacing(first, last, texts, line_num, index), count) == lines.take(
            count as int,
        ),
    decreases count,
{
    let edits = replacing(first, last, texts, line_num, index);
    if count > 0 {
        lemma_rewritten_inserting(
            lines,
            first,
            last,
            texts,
            line_num,
            index,
            (count - 1) as nat,
        );
        lemma_line_edits_of_replacing(first, last, texts, line_num, index, count);
    }
    assert(rewritten(lines, edits, count) =~= lines.take(count as int));
}

/// Replacing the lines `first` to `last` leaves the lines before and after them, with the new
/// lines between. With no new lines this is deletion, and with no old ones insertion.
pub proof fn law_replace_lines(
    lines: Seq<Seq<char>>,
    first: usize,
    last: usize,
    texts: Seq<Seq<char>>,
    line_num: nat,
    index: nat,
)
    requires
        1 <= first <= lines.len(),
        first <= last + 1,
        last <= lines.len(),
    ensures
        edited_lines(lines, replacing(first, last, texts, line_num, index)) == lines.take(first - 1)
            + texts + lines.skip(last as int),
{
    let edits = replacing(first, last, texts, line_num, index);
    let cursor = Cursor::BeforeAnchor { anchor: Anchor { line: first } };
    let a = inserts(texts, cursor, line_num, index, true, None);
    let b = deletes(first, last, line_num, index + texts.len());
    lemma_texts_concat(a, b, Place::Head);
    lemma_texts_concat(a, b, Place::Tail);
    lemma_texts_of_inserts(texts, cursor, line_num, index, true, None, Place::Head);
    lemma_texts_of_inserts(texts, cursor, line_num, index, true, None, Place::Tail);
    lemma_texts_without_inserts(b, Place::Head);
    lemma_texts_without_inserts(b, Place::Tail);
    let end = if first <= last {
        last as nat
    } else {
        first as nat
    };
    assert forall|n: nat| end < n <= lines.len() implies (#[trigger] line_edits(
        edits,
        n,
    )).is_empty() by {
        lemma_line_edits_of_replacing(first, last, texts, line_num, index, n);
    }
    law_lines_after_last_edit_are_kept(lines, edits, end);
    if first <= last {
        lemma_rewritten_replacing(lines, first, last, texts, line_num, index, end);
    } else {
        lemma_rewritten_inserting(lines, first, last, texts, line_num, index, last as nat);
        lemma_line_edits_of_replacing(first, last, texts, line_num, index, end);
        assert(rewritten(lines, edits, end) =~= lines.take(first - 1) + texts.push(
            lines[first - 1],
        ));
    }
    assert(edited_lines(lines, edits) =~= lines.take(first - 1) + texts + lines.skip(last as int));
}

/// Text inserted into one gap stands in that gap, and every line of the original is kept.
pub proof fn law_insert_lines(
    lines: Seq<Seq<char>>,
    cursor: Cursor,
    texts: Seq<Seq<char>>,
    line_num: nat,
    index: nat,
    block_start: Option<usize>,
)
    requires
        match cursor {
            Cursor::BeforeAnchor { anchor } => 1 <= anchor.line <= lines.len(),
            Cursor::AfterAnchor { anchor } => 1 <= anchor.line <= lines.len(),
            _ => true,
        },
    ensures
        ({
            let gap = match cursor {
                Cursor::Bof => 0,
                Cursor::Eof => lines.len() as int,
                Cursor::BeforeAnchor { anchor } => anchor.line - 1,
                Cursor::AfterAnchor { anchor } => anchor.line as int,
            };
            edited_lines(lines, inserts(texts, cursor, line_num, index, false, block_start))
                == lines.take(gap) + texts + lines.skip(gap)
        }),
{
    let edits = inserts(texts, cursor, line_num, index, false, block_start);
    let line: nat = match cursor {
        Cursor::BeforeAnchor { anchor } => anchor.line as nat,
        Cursor::AfterAnchor { anchor } => anchor.line as nat,
        _ => 0,
    };
    lemma_texts_of_inserts(texts, cursor, line_num, index, false, block_start, Place::Head);
    lemma_texts_of_inserts(texts, cursor, line_num, index, false, block_start, Place::Tail);
    assert forall|n: nat| n != line || cursor is Bof || cursor is Eof implies (
    #[trigger] line_edits(edits, n)).is_empty() by {
        lemma_texts_of_inserts(
            texts,
            cursor,
            line_num,
            index,
            false,
            block_start,
            Place::Before(n),
        );
        lemma_texts_of_inserts(
            texts,
            cursor,
            line_num,
            index,
            false,
            block_start,
            Place::Instead(n),
        );
        lemma_texts_of_inserts(
            texts,
            cursor,
            line_num,
            index,
            false,
            block_start,
            Place::After(n),
        );
    }
    law_lines_after_last_edit_are_kept(lines, edits, line);
    if line > 0 {
        lemma_rewritten_back(lines, edits, 0, (line - 1) as nat);
        assert(lines.subrange(0, line - 1) =~= lines.take(line - 1));
        lemma_texts_of_inserts(
            texts,
            cursor,
            line_num,
            index,
            false,
            block_start,
            Place::Before(line),
        );
        lemma_texts_of_inserts(
            texts,
            cursor,
            line_num,
            index,
            false,
            block_start,
            Place::Instead(line),
        );
        lemma_texts_of_inserts(
            texts,
            cursor,
            line_num,
            index,
            false,
            block_start,
            Place::After(line),
        );
        assert(!line_edits(edits, line).deleted);
        assert(rewritten(lines, edits, line) =~= lines.take(line - 1) + line_edits(
            edits,
            line,
        ).rewrite(lines[line - 1]));
        match cursor {
            Cursor::BeforeAnchor { .. } => {
                assert(edited_lines(lines, edits) =~= lines.take(line - 1) + texts + lines.skip(
                    line - 1,
                ));
            },
            _ => {
                assert(edited_lines(lines, edits) =~= lines.take(line as int) + texts + lines.skip(
                    line as int,
                ));
            },
        }
    } else {
        assert(lines.skip(0) =~= lines);
        assert(lines.take(lines.len() as int) =~= lines);
        match cursor {
            Cursor::Bof => {
                assert(edited_lines(lines, edits) =~= lines.take(0) + texts + lines.skip(0));
            },
            _ => {
                assert(edited_lines(lines, edits) =~= lines.take(lines.len() as int) + texts
                    + lines.skip(lines.len() as int));
            },
        }
    }
}

// ---------------------------------------------------------------------------------------------
// Executable functions

/// What the edits do at one line.
struct LineEdits {
    before: Vec<String>,
    instead: Vec<String>,
    after: Vec<String>,
    deleted: bool,
}

impl View for LineEdits {
    type V = LineEditsView;

    closed spec fn view(&self) -> LineEditsView {
        LineEditsView {
            before: strs(self.before@),
            instead: strs(self.instead@),
            after: strs(self.after@),
            deleted: self.deleted,
        }
    }
}

fn trailing_phantom_line(file_lines: &[String]) -> (n: usize)
    ensures
        n == phantom_line(strs(file_lines@)),
{
    let n = file_lines.len();
    if n > 1 {
        let last = chars_of(file_lines[n - 1].as_str());
        if last.len() == 0 {
            return n;
        }
    }
    0
}

fn drop_trailing_phantom_deletes(edits: Vec<Edit>, file_lines: &[String]) -> (out: Vec<Edit>)
    ensures
        edit_views(out@) == without_deletes(edit_views(edits@), phantom_line(strs(file_lines@))),
{
    let phantom = trailing_phantom_line(file_lines);
    let ghost all = edit_views(edits@);
    let mut out: Vec<Edit> = Vec::new();
    let mut i: usize = 0;
    proof {
        assert(all.take(0) =~= seq![]);
        assert(edit_views(out@) =~= seq![]);
    }
    while i < edits.len()
        invariant
            i <= edits.len(),
            all == edit_views(edits@),
            edit_views(out@) == without_deletes(all.take(i as int), phantom as nat),
        decreases edits.len() - i,
    {
        proof {
            assert(all.take(i + 1).drop_last() =~= all.take(i as int));
            assert(all.take(i + 1).last() == all[i as int]);
        }
        let keep = match &edits[i] {
            Edit::Delete { anchor, .. } => phantom == 0 || anchor.line != phantom,
            _ => true,
        };
        if keep {
            let edit = edits[i].clone();
            let ghost had = edit_views(out@);
            out.push(edit);
            proof {
                assert(edit_views(out@) =~= had.push(all[i as int]));
            }
        }
        i += 1;
    }
    proof {
        assert(all.take(i as int) =~= all);
    }
    out
}

proof fn lemma_first_stray(a: Seq<Anchor>, b: Seq<Anchor>, count: nat)
    ensures
        first_stray(a + b, count) == match first_stray(a, count) {
            Some(x) => Some(x),
            None => first_stray(b, count),
        },
    decreases b.len(),
{
    if b.len() == 0 {
        assert(a + b =~= a);
    } else {
        lemma_first_stray(a, b.drop_last(), count);
        assert((a + b).drop_last() =~= a + b.drop_last());
    }
}

/// The first anchor of one edit that is no line of the text.
fn stray_anchor(edit: &Edit, count: usize) -> (r: Option<Anchor>)
    ensures
        r == first_stray(edit@.anchors(), count as nat),
{
    let anchors = edit.anchors();
    let mut i: usize = 0;
    proof {
        assert(anchors@.take(0) =~= seq![]);
    }
    while i < anchors.len()
        invariant
            i <= anchors.len(),
            anchors@ == edit@.anchors(),
            first_stray(anchors@.take(i as int), count as nat) is None,
        decreases anchors.len() - i,
    {
        let anchor = anchors[i];
        proof {
            assert(anchors@.take(i + 1).drop_last() =~= anchors@.take(i as int));
            lemma_first_stray(anchors@.take(i + 1), anchors@.skip(i + 1), count as nat);
            assert(anchors@.take(i + 1) + anchors@.skip(i + 1) =~= anchors@);
        }
        if anchor.line < 1 || anchor.line > count {
            return Some(anchor);
        }
        i += 1;
    }
    proof {
        assert(anchors@.take(i as int) =~= anchors@);
    }
    None
}

fn missing_line_message(line: usize, count: usize) -> (out: String)
    ensures
        out@ == missing_line(line as nat, count as nat),
{
    let mut out = "Line ".to_owned();
    push_decimal(&mut out, line);
    out.append(" does not exist (file has ");
    push_decimal(&mut out, count);
    out.append(" lines)");
    out
}

fn validate_line_bounds(edits: &[Edit], file_lines: &[String]) -> (res: Result<(), ApplyError>)
    ensures
        match res {
            Ok(_) => first_stray(anchors_of(edit_views(edits@)), file_lines@.len()) is None,
            Err(e) => first_stray(anchors_of(edit_views(edits@)), file_lines@.len()) is Some && e@
                == missing_line(
                first_stray(anchors_of(edit_views(edits@)), file_lines@.len())->0.line as nat,
                file_lines@.len(),
            ),
        },
{
    let ghost all = edit_views(edits@);
    let count = file_lines.len();
    let mut i: usize = 0;
    proof {
        assert(all.take(0) =~= seq![]);
    }
    while i < edits.len()
        invariant
            i <= edits.len(),
            all == edit_views(edits@),
            count == file_lines@.len(),
            first_stray(anchors_of(all.take(i as int)), count as nat) is None,
        decreases edits.len() - i,
    {
        proof {
            assert(all.take(i + 1).drop_last() =~= all.take(i as int));
            assert(all.take(i + 1).last() == all[i as int]);
            lemma_first_stray(
                anchors_of(all.take(i as int)),
                all[i as int].anchors(),
                count as nat,
            );
            lemma_anchors_split(all, i + 1);
            lemma_first_stray(
                anchors_of(all.take(i + 1)),
                anchors_of(all.skip(i + 1)),
                count as nat,
            );
        }
        if let Some(anchor) = stray_anchor(&edits[i], count) {
            return Err(ApplyError::Message(missing_line_message(anchor.line, count)));
        }
        i += 1;
    }
    proof {
        assert(all.take(i as int) =~= all);
    }
    Ok(())
}

pub proof fn lemma_anchors_split(edits: Seq<EditView>, i: int)
    requires
        0 <= i <= edits.len(),
    ensures
        anchors_of(edits) == anchors_of(edits.take(i)) + anchors_of(edits.skip(i)),
    decreases edits.len(),
{
    if i == edits.len() {
        assert(edits.take(i) =~= edits);
        assert(edits.skip(i) =~= seq![]);
        assert(anchors_of(edits) + seq![] =~= anchors_of(edits));
    } else {
        lemma_anchors_split(edits.drop_last(), i);
        assert(edits.drop_last().take(i) =~= edits.take(i));
        assert(edits.skip(i).drop_last() =~= edits.drop_last().skip(i));
        assert(edits.skip(i).last() == edits.last());
        assert(anchors_of(edits) =~= anchors_of(edits.take(i)) + anchors_of(edits.skip(i)));
    }
}

/// An anchor that is among those of the edits, once none of these is stray, is a line.
proof fn lemma_no_stray(anchors: Seq<Anchor>, count: nat, i: int)
    requires
        first_stray(anchors, count) is None,
        0 <= i < anchors.len(),
    ensures
        1 <= anchors[i].line <= count,
    decreases anchors.len(),
{
    if i < anchors.len() - 1 {
        lemma_no_stray(anchors.drop_last(), count, i);
    }
}

pub proof fn lemma_anchor_of_edit(edits: Seq<EditView>, count: nat, i: int)
    requires
        first_stray(anchors_of(edits), count) is None,
        0 <= i < edits.len(),
    ensures
        forall|j: int| 0 <= j < edits[i].anchors().len() ==> 1 <= (#[trigger] edits[i].anchors()[j]).line
            <= count,
{
    lemma_anchors_split(edits, i);
    lemma_anchors_split(edits.skip(i), 1);
    assert(edits.skip(i).take(1).drop_last() =~= seq![]);
    assert(edits.skip(i).take(1).last() == edits[i]);
    let head = anchors_of(edits.take(i));
    reveal_with_fuel(anchors_of, 2);
    assert(anchors_of(edits.skip(i).take(1)) =~= edits[i].anchors());
    assert forall|j: int| 0 <= j < edits[i].anchors().len() implies 1 <= (
    #[trigger] edits[i].anchors()[j]).line <= count by {
        assert(anchors_of(edits)[head.len() + j] == edits[i].anchors()[j]);
        lemma_no_stray(anchors_of(edits), count, head.len() + j);
    }
}

/// One more edit at the end of the list.
proof fn lemma_texts_step(edits: Seq<EditView>, i: int, place: Place)
    requires
        0 <= i < edits.len(),
    ensures
        texts_at(edits.take(i + 1), place) == if place_of(edits[i]) == Some(place) {
            texts_at(edits.take(i), place).push(edits[i]->Insert_text)
        } else {
            texts_at(edits.take(i), place)
        },
{
    assert(edits.take(i + 1).drop_last() =~= edits.take(i));
    assert(edits.take(i + 1).last() == edits[i]);
}

proof fn lemma_line_edits_step(edits: Seq<EditView>, i: int, line: nat)
    requires
        0 <= i < edits.len(),
    ensures
        ({
            let had = line_edits(edits.take(i), line);
            let now = line_edits(edits.take(i + 1), line);
            &&& now.deleted == (had.deleted || deletes_line(edits[i], line))
            &&& now.before == if place_of(edits[i]) == Some(Place::Before(line)) {
                had.before.push(edits[i]->Insert_text)
            } else {
                had.before
            }
            &&& now.instead == if place_of(edits[i]) == Some(Place::Instead(line)) {
                had.instead.push(edits[i]->Insert_text)
            } else {
                had.instead
            }
            &&& now.after == if place_of(edits[i]) == Some(Place::After(line)) {
                had.after.push(edits[i]->Insert_text)
            } else {
                had.after
            }
        }),
{
    lemma_texts_step(edits, i, Place::Before(line));
    lemma_texts_step(edits, i, Place::Instead(line));
    lemma_texts_step(edits, i, Place::After(line));
    let a = edits.take(i);
    let b = edits.take(i + 1);
    if line_edits(a, line).deleted {
        let k = choose|k: int| 0 <= k < a.len() && deletes_line(#[trigger] a[k], line);
        assert(deletes_line(b[k], line));
    }
    if deletes_line(edits[i], line) {
        assert(deletes_line(b[i], line));
    }
    if line_edits(b, line).deleted {
        let k = choose|k: int| 0 <= k < b.len() && deletes_line(#[trigger] b[k], line);
        if k < i {
            assert(deletes_line(a[k], line));
        }
    }
}

/// Where the inserted texts and the deletions of a list of edits go.
struct Sorted {
    head: Vec<String>,
    tail: Vec<String>,
    lines: Vec<LineEdits>,
}

spec fn is_sorted(sorted: Sorted, edits: Seq<EditView>, count: nat) -> bool {
    &&& sorted.lines@.len() == count
    &&& strs(sorted.head@) == texts_at(edits, Place::Head)
    &&& strs(sorted.tail@) == texts_at(edits, Place::Tail)
    &&& forall|n: int|
        0 <= n < count ==> (#[trigger] sorted.lines@[n])@ == line_edits(edits, (n + 1) as nat)
}

fn push_text(v: &mut Vec<String>, text: &String)
    ensures
        strs(final(v)@) == strs(old(v)@).push(text@),
{
    v.push(text.clone());
    proof {
        assert(strs(v@) =~= strs(old(v)@).push(text@));
    }
}

/// Sort the edits by the line that they name.
fn sort_by_line(edits: &[Edit], count: usize) -> (sorted: Sorted)
    requires
        forall|i: int|
            0 <= i < edits@.len() ==> (#[trigger] edits@[i])@ is Insert || edits@[i]@ is Delete,
        first_stray(anchors_of(edit_views(edits@)), count as nat) is None,
    ensures
        is_sorted(sorted, edit_views(edits@), count as nat),
{
    let mut head: Vec<String> = Vec::new();
    let mut tail: Vec<String> = Vec::new();
    let mut lines: Vec<LineEdits> = Vec::new();
    let ghost all = edit_views(edits@);
    let mut n: usize = 0;
    proof {
        assert(all.take(0) =~= seq![]);
        assert(strs(head@) =~= texts_at(all.take(0), Place::Head));
        assert(strs(tail@) =~= texts_at(all.take(0), Place::Tail));
    }
    while n < count
        invariant
            n <= count,
            lines@.len() == n,
            all.take(0).len() == 0,
            forall|k: int|
                0 <= k < n ==> (#[trigger] lines@[k])@ == line_edits(all.take(0), (k + 1) as nat),
        decreases count - n,
    {
        let fresh = LineEdits {
            before: Vec::new(),
            instead: Vec::new(),
            after: Vec::new(),
            deleted: false,
        };
        proof {
            assert(fresh@ =~= line_edits(all.take(0), (n + 1) as nat));
        }
        lines.push(fresh);
        n += 1;
    }
    let mut i: usize = 0;
    while i < edits.len()
        invariant
            i <= edits.len(),
            all == edit_views(edits@),
            forall|i: int|
                0 <= i < edits@.len() ==> (#[trigger] edits@[i])@ is Insert || edits@[i]@ is Delete,
            first_stray(anchors_of(all), count as nat) is None,
            lines@.len() == count,
            strs(head@) == texts_at(all.take(i as int), Place::Head),
            strs(tail@) == texts_at(all.take(i as int), Place::Tail),
            forall|k: int|
                0 <= k < count ==> (#[trigger] lines@[k])@ == line_edits(
                    all.take(i as int),
                    (k + 1) as nat,
                ),
        decreases edits.len() - i,
    {
        let ghost had = lines@;
        let ghost edit = all[i as int];
        proof {
            lemma_anchor_of_edit(all, count as nat, i as int);
            lemma_texts_step(all, i as int, Place::Head);
            lemma_texts_step(all, i as int, Place::Tail);
            assert(edit == edits@[i as int]@);
        }
        match &edits[i] {
            Edit::Insert { cursor, text, replacement, .. } => match cursor {
                Cursor::Bof => push_text(&mut head, text),
                Cursor::Eof => push_text(&mut tail, text),
                Cursor::BeforeAnchor { anchor } => {
                    proof {
                        assert(edit.anchors()[0] == *anchor);
                    }
                    if *replacement {
                        push_text(&mut lines[anchor.line - 1].instead, text);
                    } else {
                        push_text(&mut lines[anchor.line - 1].before, text);
                    }
                },
                Cursor::AfterAnchor { anchor } => {
                    proof {
                        assert(edit.anchors()[0] == *anchor);
                    }
                    if *replacement {
                        push_text(&mut lines[anchor.line - 1].instead, text);
                    } else {
                        push_text(&mut lines[anchor.line - 1].after, text);
                    }
                },
            },
            Edit::Delete { anchor, .. } => {
                proof {
                    assert(edit.anchors()[0] == *anchor);
                }
                lines[anchor.line - 1].deleted = true;
            },
            _ => {},
        }
        proof {
            assert forall|k: int| 0 <= k < count implies (#[trigger] lines@[k])@ == line_edits(
                all.take(i + 1),
                (k + 1) as nat,
            ) by {
                lemma_line_edits_step(all, i as int, (k + 1) as nat);
                assert(had[k]@ == line_edits(all.take(i as int), (k + 1) as nat));
                assert(lines@[k]@ =~= line_edits(all.take(i + 1), (k + 1) as nat));
            }
        }
        i += 1;
    }
    proof {
        assert(all.take(i as int) =~= all);
    }
    Sorted { head, tail, lines }
}

fn materialize(original_lines: &[String], edits: &[Edit]) -> (r: ApplyResult)
    requires
        forall|i: int|
            0 <= i < edits@.len() ==> (#[trigger] edits@[i])@ is Insert || edits@[i]@ is Delete,
        first_stray(anchors_of(edit_views(edits@)), original_lines@.len()) is None,
    ensures
        r@ == materialized(strs(original_lines@), edit_views(edits@)),
{
    let ghost all = edit_views(edits@);
    let ghost lines = strs(original_lines@);
    let count = original_lines.len();
    let sorted = sort_by_line(edits, count);
    let mut out: Vec<String> = Vec::new();
    push_strings(&mut out, sorted.head.as_slice());
    let mut touched: Option<usize> = None;
    let mut i: usize = 0;
    let ghost head = texts_at(all, Place::Head);
    proof {
        assert(strs(out@) =~= head + rewritten(lines, all, 0));
    }
    while i < count
        invariant
            i <= count,
            count == original_lines@.len(),
            lines == strs(original_lines@),
            head == texts_at(all, Place::Head),
            is_sorted(sorted, all, count as nat),
            strs(out@) == head + rewritten(lines, all, i as nat),
            match touched {
                Some(n) => first_touched(all, i as nat) == Some(n as nat),
                None => first_touched(all, i as nat) is None && rewritten(lines, all, i as nat)
                    == lines.take(i as int),
            },
        decreases count - i,
    {
        let at = &sorted.lines[i];
        let ghost had = strs(out@);
        let ghost now = at@;
        push_strings(&mut out, at.before.as_slice());
        push_strings(&mut out, at.instead.as_slice());
        if !at.deleted {
            push_text(&mut out, &original_lines[i]);
        }
        push_strings(&mut out, at.after.as_slice());
        proof {
            assert(now == line_edits(all, (i + 1) as nat));
            assert(strs(out@) =~= had + now.rewrite(lines[i as int]));
            assert(strs(out@) =~= head + rewritten(lines, all, (i + 1) as nat));
            if now.is_empty() {
                assert(now.rewrite(lines[i as int]) =~= seq![lines[i as int]]);
                assert(lines.take(i + 1) =~= lines.take(i as int) + seq![lines[i as int]]);
            }
        }
        if touched.is_none() && (at.before.len() > 0 || at.instead.len() > 0 || at.after.len() > 0
            || at.deleted) {
            touched = Some(i + 1);
        }
        i += 1;
    }
    let body = out.len();
    push_strings(&mut out, sorted.tail.as_slice());
    proof {
        assert(out@.len() == out.len());
        assert(strs(out@) =~= edited_lines(lines, all));
        assert(lines.take(count as int) =~= lines);
    }
    let first_changed_line = if sorted.head.len() > 0 {
        Some(1)
    } else if touched.is_some() {
        touched
    } else if sorted.tail.len() > 0 {
        Some(body + 1)
    } else {
        None
    };
    let r = ApplyResult {
        text: join_text(out.as_slice()),
        first_changed_line,
        warnings: Vec::new(),
        block_resolutions: Vec::new(),
    };
    proof {
        assert(strs(r.warnings@) =~= seq![]);
        assert(r@ =~= materialized(lines, all));
    }
    r
}

/// Apply edits to a text.
pub fn apply_edits(text: &str, edits: &[Edit], clipboard: Option<&mut Clipboard>) -> (res: Result<
    ApplyResult,
    ApplyError,
>)
    requires
        match clipboard {
            Some(c) => can_apply(text@, edit_views(edits@), c@),
            None => can_apply(text@, edit_views(edits@), empty_clipboard()),
        },
    ensures
        ({
            let clip = match clipboard {
                Some(c) => c@,
                None => empty_clipboard(),
            };
            let expected = applied(text@, edit_views(edits@), clip);
            &&& match res {
                Ok(r) => expected.0 == Ok::<ApplyView, Seq<char>>(r@),
                Err(e) => expected.0 == Err::<ApplyView, Seq<char>>(e@),
            }
            &&& match clipboard {
                Some(c) => final(c)@ == expected.1,
                None => true,
            }
        }),
{
    if edits.len() == 0 {
        let r = ApplyResult { text: text.to_owned(), ..ApplyResult::default() };
        return Ok(r);
    }
    let mut scratch = Clipboard::default();
    let clip = match clipboard {
        Some(c) => c,
        None => &mut scratch,
    };
    apply_some(text, edits, clip)
}

/// `apply_edits` on at least one edit.
fn apply_some(text: &str, edits: &[Edit], clipboard: &mut Clipboard) -> (res: Result<
    ApplyResult,
    ApplyError,
>)
    requires
        edits@.len() > 0,
        can_apply(text@, edit_views(edits@), old(clipboard)@),
    ensures
        ({
            let expected = applied(text@, edit_views(edits@), old(clipboard)@);
            &&& match res {
                Ok(r) => expected.0 == Ok::<ApplyView, Seq<char>>(r@),
                Err(e) => expected.0 == Err::<ApplyView, Seq<char>>(e@),
            }
            &&& final(clipboard)@ == expected.1
        }),
{
    let file_lines = split_lines(chars_of(text).as_slice());
    let mut warnings: Vec<String> = Vec::new();
    proof {
        assert(strs(warnings@) =~= seq![]);
        law_run_leaves_no_clipboard_edits(
            edit_views(edits@),
            strs(file_lines@),
            clipboard@,
            seq![],
            false,
        );
    }
    let concrete = match resolve_clipboard_edits(
        edits,
        file_lines.as_slice(),
        clipboard,
        false,
        &mut warnings,
    ) {
        Ok(concrete) => concrete,
        Err(e) => {
            return Err(ApplyError::Message(e.message()));
        },
    };
    proof {
        assert forall|i: int| 0 <= i < concrete@.len() implies !is_clip_edit(
            (#[trigger] concrete@[i])@,
        ) by {
            assert(edit_views(concrete@)[i] == concrete@[i]@);
        }
    }
    match apply_concrete(file_lines.as_slice(), concrete) {
        Ok(result) => Ok(ApplyResult { warnings, ..result }),
        Err(e) => Err(e),
    }
}

fn apply_concrete(file_lines: &[String], concrete: Vec<Edit>) -> (res: Result<
    ApplyResult,
    ApplyError,
>)
    requires
        forall|i: int| 0 <= i < concrete@.len() ==> !is_clip_edit((#[trigger] concrete@[i])@),
    ensures
        match res {
            Ok(r) => applied_concrete(strs(file_lines@), edit_views(concrete@)) == Ok::<
                ApplyView,
                Seq<char>,
            >(r@),
            Err(e) => applied_concrete(strs(file_lines@), edit_views(concrete@)) == Err::<
                ApplyView,
                Seq<char>,
            >(e@),
        },
{
    let ghost all = edit_views(concrete@);
    let mut i: usize = 0;
    while i < concrete.len()
        invariant
            i <= concrete.len(),
            all == edit_views(concrete@),
            forall|k: int| 0 <= k < i ==> !((#[trigger] all[k]) is Block),
        decreases concrete.len() - i,
    {
        if let Edit::Block { .. } = &concrete[i] {
            proof {
                assert(all[i as int] is Block);
            }
            return Err(
                ApplyError::Message("unresolved block edit reached the applier".to_owned()),
            );
        }
        proof {
            assert(all[i as int] == concrete@[i as int]@);
        }
        i += 1;
    }
    proof {
        assert forall|k: int| 0 <= k < all.len() implies (#[trigger] all[k]) is Insert
            || all[k] is Delete by {
            assert(all[k] == concrete@[k]@);
            assert(!is_clip_edit(concrete@[k]@));
        }
        lemma_without_deletes(all, phantom_line(strs(file_lines@)));
    }
    let target = drop_trailing_phantom_deletes(concrete, file_lines);
    proof {
        assert forall|k: int| 0 <= k < target@.len() implies (#[trigger] target@[k])@ is Insert
            || target@[k]@ is Delete by {
            assert(edit_views(target@)[k] == target@[k]@);
        }
    }
    match validate_line_bounds(target.as_slice(), file_lines) {
        Ok(_) => Ok(materialize(file_lines, target.as_slice())),
        Err(e) => Err(e),
    }
}

/// What is left are edits of the list.
proof fn lemma_without_deletes(edits: Seq<EditView>, phantom: nat)
    requires
        forall|k: int|
            0 <= k < edits.len() ==> (#[trigger] edits[k]) is Insert || edits[k] is Delete,
    ensures
        forall|k: int|
            #![trigger without_deletes(edits, phantom)[k]]
            0 <= k < without_deletes(edits, phantom).len() ==> without_deletes(
                edits,
                phantom,
            )[k] is Insert || without_deletes(edits, phantom)[k] is Delete,
    decreases edits.len(),
{
    if edits.len() > 0 {
        assert forall|k: int| 0 <= k < edits.drop_last().len() implies (
        #[trigger] edits.drop_last()[k]) is Insert || edits.drop_last()[k] is Delete by {
            assert(edits.drop_last()[k] == edits[k]);
        }
        lemma_without_deletes(edits.drop_last(), phantom);
        assert(edits.last() == edits[edits.len() - 1]);
    }
}

} // verus!
