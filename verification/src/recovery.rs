//! Recover stale tags when every anchored line remaps with a uniform offset.

use crate::apply::{anchors_of, applied, apply_edits, can_apply, lemma_anchors_split};
use crate::clipboard::cuts_run_forward;
use crate::snapshots::{found, head_of, SnapshotStore, Sought, StoreView};
use crate::text::{
    can_number_lines, chars_of, distinct_count, lines_of, same_text, split_lines, strs,
};
use crate::types::{
    copy_opt_string, cursor_anchors, edit_views, Anchor, ApplyResult, ApplyView, Clipboard,
    ClipboardView, Cursor, Edit, EditView, ParsedRange, PasteTarget,
};
use similar::{ChangeTag, TextDiff};
use vstd::prelude::*;

verus! {

/// Edits applied to a text that has changed since it was read, and a warning that says so.
#[derive(Debug)]
pub struct RecoveryResult {
    pub apply: ApplyResult,
    pub warning: String,
}

impl Clone for RecoveryResult {
    fn clone(&self) -> (r: Self)
        ensures
            r.apply@ == self.apply@,
            r.warning@ == self.warning@,
    {
        RecoveryResult { apply: self.apply.clone(), warning: self.warning.clone() }
    }
}

/// One step of a line diff: a line that both texts have, a line of the old text alone, or a line of
/// the new text alone.
#[derive(Debug, Clone, Copy, PartialEq, Eq, Structural)]
pub enum LineChange {
    Equal,
    Delete,
    Insert,
}

// ---------------------------------------------------------------------------------------------
// The line diff

/// The changes that `similar` finds between two lists of lines.
pub uninterp spec fn line_changes(old: Seq<Seq<char>>, new: Seq<Seq<char>>) -> Seq<LineChange>;

/// The changes lead from `old` to `new`: they pass over the lines of both in order, and a line that
/// is passed in both at once is the same in both.
pub open spec fn is_edit_script(
    old: Seq<Seq<char>>,
    new: Seq<Seq<char>>,
    changes: Seq<LineChange>,
) -> bool
    decreases changes.len(),
{
    if changes.len() == 0 {
        old.len() == 0 && new.len() == 0
    } else {
        let front = changes.drop_last();
        match changes.last() {
            LineChange::Equal => old.len() > 0 && new.len() > 0 && old.last() == new.last()
                && is_edit_script(old.drop_last(), new.drop_last(), front),
            LineChange::Delete => old.len() > 0 && is_edit_script(old.drop_last(), new, front),
            LineChange::Insert => new.len() > 0 && is_edit_script(old, new.drop_last(), front),
        }
    }
}

/// `TextDiff::from_slices` of `similar` with its default settings, and the tags of its
/// `iter_all_changes`. The tags depend on the two lists alone, pass over the lines of both in order,
/// and mark as equal only lines that are equal. Which of the possible diffs it finds is not stated.
/// More different lines than a `u32` can number are left out, since it numbers them by one.
#[verifier::external_body]
pub(crate) fn diff_lines(old: &[String], new: &[String]) -> (r: Vec<LineChange>)
    requires
        distinct_count(strs(old@) + strs(new@)) <= u32::MAX,
    ensures
        r@ == line_changes(strs(old@), strs(new@)),
        is_edit_script(strs(old@), strs(new@), r@),
{
    let old: Vec<&str> = old.iter().map(|s| s.as_str()).collect();
    let new: Vec<&str> = new.iter().map(|s| s.as_str()).collect();
    TextDiff::from_slices(&old, &new)
        .iter_all_changes()
        .map(|change| match change.tag() {
            ChangeTag::Equal => LineChange::Equal,
            ChangeTag::Delete => LineChange::Delete,
            ChangeTag::Insert => LineChange::Insert,
        })
        .collect()
}

// ---------------------------------------------------------------------------------------------
// Model

/// For each line of the old text the number of the line of the new text that it became.
pub open spec fn line_map(changes: Seq<LineChange>) -> Seq<Option<nat>>
    decreases changes.len(),
{
    if changes.len() == 0 {
        seq![]
    } else {
        let front = changes.drop_last();
        match changes.last() {
            LineChange::Equal => line_map(front).push(Some(new_lines(front) + 1)),
            LineChange::Delete => line_map(front).push(None),
            LineChange::Insert => line_map(front),
        }
    }
}

/// How many lines of the new text the changes pass over.
pub open spec fn new_lines(changes: Seq<LineChange>) -> nat
    decreases changes.len(),
{
    if changes.len() == 0 {
        0
    } else {
        new_lines(changes.drop_last()) + if changes.last() is Delete {
            0nat
        } else {
            1
        }
    }
}

/// The line that a line became.
pub open spec fn mapped(map: Seq<Option<nat>>, line: nat) -> Option<nat> {
    if 1 <= line <= map.len() {
        map[line - 1]
    } else {
        None
    }
}

pub open spec fn map_views(map: Seq<Option<usize>>) -> Seq<Option<nat>> {
    Seq::new(
        map.len(),
        |i: int|
            match map[i] {
                Some(n) => Some(n as nat),
                None => None,
            },
    )
}

/// Every anchor maps, and all of them by the same distance.
pub open spec fn is_uniform(anchors: Seq<Anchor>, map: Seq<Option<nat>>) -> bool {
    &&& forall|i: int|
        0 <= i < anchors.len() ==> mapped(map, (#[trigger] anchors[i]).line as nat) is Some
    &&& forall|i: int, j: int|
        0 <= i < anchors.len() && 0 <= j < anchors.len() ==> mapped(
            map,
            (#[trigger] anchors[i]).line as nat,
        )->0 - anchors[i].line == mapped(map, (#[trigger] anchors[j]).line as nat)->0
            - anchors[j].line
}

pub open spec fn is_anchor_line(anchors: Seq<Anchor>, line: nat) -> bool {
    exists|i: int| 0 <= i < anchors.len() && (#[trigger] anchors[i]).line == line
}

/// The nearest line at or above `line` that is no anchor, or zero.
pub open spec fn free_above(anchors: Seq<Anchor>, line: nat) -> nat
    decreases line,
{
    if line >= 1 && is_anchor_line(anchors, line) {
        free_above(anchors, (line - 1) as nat)
    } else {
        line
    }
}

/// The nearest line at or below `line` that is no anchor, or one past the last.
pub open spec fn free_below(anchors: Seq<Anchor>, line: nat, count: nat) -> nat
    decreases count + 1 - line,
{
    if line <= count && is_anchor_line(anchors, line) {
        free_below(anchors, line + 1, count)
    } else {
        line
    }
}

/// Two neighbouring lines that are alike kept their distance, so that one cannot have been taken
/// for the other.
pub open spec fn kept_distance(
    old: Seq<Seq<char>>,
    map: Seq<Option<nat>>,
    line: nat,
    other: nat,
) -> bool {
    match (mapped(map, line), mapped(map, other)) {
        (Some(a), Some(b)) => a - b == line - other || old[line - 1] != old[other - 1],
        _ => true,
    }
}

/// The neighbours of an anchored line that no edit names.
pub open spec fn neighbours_agree(
    old: Seq<Seq<char>>,
    map: Seq<Option<nat>>,
    anchors: Seq<Anchor>,
    line: nat,
) -> bool {
    let above = free_above(anchors, (line - 1) as nat);
    let below = free_below(anchors, line + 1, old.len());
    &&& above >= 1 ==> kept_distance(old, map, line, above)
    &&& below <= old.len() ==> kept_distance(old, map, line, below)
}

pub open spec fn all_neighbours_agree(
    old: Seq<Seq<char>>,
    map: Seq<Option<nat>>,
    anchors: Seq<Anchor>,
) -> bool {
    forall|i: int|
        0 <= i < anchors.len() ==> neighbours_agree(
            old,
            map,
            anchors,
            (#[trigger] anchors[i]).line as nat,
        )
}

pub open spec fn anchor_mapped(anchor: Anchor, map: Seq<Option<nat>>) -> Option<Anchor> {
    match mapped(map, anchor.line as nat) {
        Some(n) => Some(Anchor { line: n as usize }),
        None => None,
    }
}

pub open spec fn cursor_mapped(cursor: Cursor, map: Seq<Option<nat>>) -> Option<Cursor> {
    match cursor {
        Cursor::Bof => Some(Cursor::Bof),
        Cursor::Eof => Some(Cursor::Eof),
        Cursor::BeforeAnchor { anchor } => match anchor_mapped(anchor, map) {
            Some(anchor) => Some(Cursor::BeforeAnchor { anchor }),
            None => None,
        },
        Cursor::AfterAnchor { anchor } => match anchor_mapped(anchor, map) {
            Some(anchor) => Some(Cursor::AfterAnchor { anchor }),
            None => None,
        },
    }
}

pub open spec fn range_mapped(range: ParsedRange, map: Seq<Option<nat>>) -> Option<ParsedRange> {
    match (anchor_mapped(range.start, map), anchor_mapped(range.end, map)) {
        (Some(start), Some(end)) => Some(ParsedRange { start, end }),
        _ => None,
    }
}

pub open spec fn start_mapped(start: Option<usize>, map: Seq<Option<nat>>) -> Option<usize> {
    match start {
        Some(line) => match mapped(map, line as nat) {
            Some(n) => Some(n as usize),
            None => None,
        },
        None => None,
    }
}

/// An edit on the lines that its lines became. A block edit has no such form.
pub open spec fn edit_mapped(edit: EditView, map: Seq<Option<nat>>) -> Option<EditView> {
    match edit {
        EditView::Insert { cursor, text, line_num, index, replacement, block_start } => {
            match cursor_mapped(cursor, map) {
                Some(cursor) => Some(
                    EditView::Insert {
                        cursor,
                        text,
                        line_num,
                        index,
                        replacement,
                        block_start: start_mapped(block_start, map),
                    },
                ),
                None => None,
            }
        },
        EditView::Delete { anchor, line_num, index } => match anchor_mapped(anchor, map) {
            Some(anchor) => Some(EditView::Delete { anchor, line_num, index }),
            None => None,
        },
        EditView::Cut { range, register, line_num, index } => match range_mapped(range, map) {
            Some(range) => Some(EditView::Cut { range, register, line_num, index }),
            None => None,
        },
        EditView::Paste { at, register, line_num, index, block_start } => {
            let moved = match at {
                PasteTarget::Gap { cursor } => match cursor_mapped(cursor, map) {
                    Some(cursor) => Some(PasteTarget::Gap { cursor }),
                    None => None,
                },
                PasteTarget::Span { range } => match range_mapped(range, map) {
                    Some(range) => Some(PasteTarget::Span { range }),
                    None => None,
                },
            };
            match moved {
                Some(at) => Some(
                    EditView::Paste {
                        at,
                        register,
                        line_num,
                        index,
                        block_start: start_mapped(block_start, map),
                    },
                ),
                None => None,
            }
        },
        EditView::Block { .. } => None,
    }
}

pub open spec fn edits_mapped(edits: Seq<EditView>, map: Seq<Option<nat>>) -> Option<Seq<EditView>>
    decreases edits.len(),
{
    if edits.len() == 0 {
        Some(seq![])
    } else {
        match (edits_mapped(edits.drop_last(), map), edit_mapped(edits.last(), map)) {
            (Some(front), Some(last)) => Some(front.push(last)),
            _ => None,
        }
    }
}

/// The edits on the lines of the new text, provided that all of them can be carried over safely.
pub open spec fn carried_over(
    old: Seq<Seq<char>>,
    changes: Seq<LineChange>,
    edits: Seq<EditView>,
) -> Option<Seq<EditView>> {
    let map = line_map(changes);
    let anchors = anchors_of(edits);
    if is_uniform(anchors, map) && all_neighbours_agree(old, map, anchors) {
        edits_mapped(edits, map)
    } else {
        None
    }
}

pub open spec fn recovery_warning(store: StoreView, path: Seq<char>, hash: Seq<char>) -> Seq<char> {
    let previous = found(store, path, Sought::Hash(hash))->0.text;
    let is_head = match head_of(store, path) {
        Some(head) => head.text == previous,
        None => false,
    };
    "stale tag "@ + hash + if is_head {
        ": file drifted outside this session; remapped anchors"@
    } else {
        ": remapped anchors from a prior in-session edit"@
    }
}

/// What a recovery comes to, given the line diff between the snapshot and the live text: the result
/// and its warning, and the clipboard afterwards.
pub open spec fn recovered_by(
    changes: Seq<LineChange>,
    store: StoreView,
    path: Seq<char>,
    current: Seq<char>,
    hash: Seq<char>,
    edits: Seq<EditView>,
    clip: ClipboardView,
) -> (Option<(ApplyView, Seq<char>)>, ClipboardView) {
    let previous = found(store, path, Sought::Hash(hash))->0.text;
    match carried_over(lines_of(previous), changes, edits) {
        None => (None, clip),
        Some(moved) => {
            let (result, after) = applied(current, moved, clip);
            match result {
                Err(_) => (None, after),
                Ok(view) => if view.text == current {
                    (None, after)
                } else {
                    (Some((view, recovery_warning(store, path, hash))), after)
                },
            }
        },
    }
}

/// Whether a recovery can be tried: there is a snapshot with the tag, of another text than the live
/// one, and the different lines of both can be numbered.
pub open spec fn may_recover(
    store: StoreView,
    path: Seq<char>,
    current: Seq<char>,
    hash: Seq<char>,
) -> bool {
    match found(store, path, Sought::Hash(hash)) {
        None => false,
        Some(snapshot) => snapshot.text != current && distinct_count(
            lines_of(snapshot.text) + lines_of(current),
        ) <= u32::MAX,
    }
}

/// The line diff between the snapshot with the tag and the live text.
pub open spec fn changes_since(
    store: StoreView,
    path: Seq<char>,
    current: Seq<char>,
    hash: Seq<char>,
) -> Seq<LineChange> {
    line_changes(lines_of(found(store, path, Sought::Hash(hash))->0.text), lines_of(current))
}

/// The line diff leads from the snapshot with the tag to the live text.
pub open spec fn leads_to_live(
    store: StoreView,
    path: Seq<char>,
    current: Seq<char>,
    hash: Seq<char>,
) -> bool {
    is_edit_script(
        lines_of(found(store, path, Sought::Hash(hash))->0.text),
        lines_of(current),
        changes_since(store, path, current, hash),
    )
}

/// What a recovery comes to, by a line diff that leads from the snapshot to the live text.
pub open spec fn recovered(
    store: StoreView,
    path: Seq<char>,
    current: Seq<char>,
    hash: Seq<char>,
    edits: Seq<EditView>,
    clip: ClipboardView,
) -> (Option<(ApplyView, Seq<char>)>, ClipboardView) {
    if may_recover(store, path, current, hash) && leads_to_live(store, path, current, hash) {
        recovered_by(
            changes_since(store, path, current, hash),
            store,
            path,
            current,
            hash,
            edits,
            clip,
        )
    } else {
        (None, clip)
    }
}

/// Whether the cuts that a recovery comes to can be captured: those of the edits as they were
/// carried over to the live text.
pub open spec fn can_recover_by(
    changes: Seq<LineChange>,
    previous: Seq<char>,
    current: Seq<char>,
    edits: Seq<EditView>,
    clip: ClipboardView,
) -> bool {
    carried_over(lines_of(previous), changes, edits) matches Some(moved) ==> can_apply(
        current,
        moved,
        clip,
    )
}

/// The same where the diff is the one that `similar` finds, as far as a recovery is tried at all: a
/// list holds no more lines than a `usize` can count.
pub open spec fn can_recover(
    store: StoreView,
    path: Seq<char>,
    current: Seq<char>,
    hash: Seq<char>,
    edits: Seq<EditView>,
    clip: ClipboardView,
) -> bool {
    may_recover(store, path, current, hash) && leads_to_live(store, path, current, hash)
        && lines_of(current).len() <= usize::MAX ==> can_recover_by(
        changes_since(store, path, current, hash),
        found(store, path, Sought::Hash(hash))->0.text,
        current,
        edits,
        clip,
    )
}

// ---------------------------------------------------------------------------------------------
// Laws

/// The line map has an entry for each line of the old text. An entry is a line of the new text that
/// holds the same text, and later lines have later entries.
pub proof fn law_line_map_joins_equal_lines(
    old: Seq<Seq<char>>,
    new: Seq<Seq<char>>,
    changes: Seq<LineChange>,
)
    requires
        is_edit_script(old, new, changes),
    ensures
        line_map(changes).len() == old.len(),
        new_lines(changes) == new.len(),
        forall|i: int|
            0 <= i < old.len() ==> ((#[trigger] line_map(changes)[i]) matches Some(n) ==> 1 <= n
                <= new.len() && new[n - 1] == old[i]),
        forall|i: int, j: int|
            0 <= i < j < old.len() ==> ((#[trigger] line_map(changes)[i]) matches Some(m) ==> ((
            #[trigger] line_map(changes)[j]) matches Some(n) ==> m < n)),
    decreases changes.len(),
{
    if changes.len() > 0 {
        let front = changes.drop_last();
        match changes.last() {
            LineChange::Equal => {
                law_line_map_joins_equal_lines(old.drop_last(), new.drop_last(), front);
                let map = line_map(changes);
                assert forall|i: int| 0 <= i < old.len() implies ((#[trigger] map[i]) matches Some(
                    n,
                ) ==> 1 <= n <= new.len() && new[n - 1] == old[i]) by {
                    if i < old.len() - 1 {
                        assert(map[i] == line_map(front)[i]);
                    }
                }
                assert forall|i: int, j: int| 0 <= i < j < old.len() implies ((
                #[trigger] map[i]) matches Some(m) ==> ((#[trigger] map[j]) matches Some(n) ==> m
                    < n)) by {
                    assert(map[i] == line_map(front)[i]);
                    if j < old.len() - 1 {
                        assert(map[j] == line_map(front)[j]);
                    }
                }
            },
            LineChange::Delete => {
                law_line_map_joins_equal_lines(old.drop_last(), new, front);
                let map = line_map(changes);
                assert forall|i: int| 0 <= i < old.len() - 1 implies map[i] == #[trigger] line_map(
                    front,
                )[i] by {}
            },
            LineChange::Insert => {
                law_line_map_joins_equal_lines(old, new.drop_last(), front);
            },
        }
    }
}

/// Two lines that hold the same, the one in `old` and the other in `new`.
pub open spec fn holds_same(
    old: Seq<Seq<char>>,
    new: Seq<Seq<char>>,
    a: Anchor,
    b: Anchor,
) -> bool {
    1 <= a.line <= old.len() && 1 <= b.line <= new.len() && old[a.line - 1] == new[b.line - 1]
}

/// The lines named by `to` in `new` hold what those named by `from` in `old` hold, in the same
/// order.
pub open spec fn hold_same(
    old: Seq<Seq<char>>,
    new: Seq<Seq<char>>,
    from: Seq<Anchor>,
    to: Seq<Anchor>,
) -> bool {
    from.len() == to.len() && forall|k: int|
        0 <= k < to.len() ==> holds_same(old, new, from[k], #[trigger] to[k])
}

proof fn lemma_mapped_anchor(
    old: Seq<Seq<char>>,
    new: Seq<Seq<char>>,
    changes: Seq<LineChange>,
    anchor: Anchor,
)
    requires
        is_edit_script(old, new, changes),
        new.len() <= usize::MAX,
    ensures
        anchor_mapped(anchor, line_map(changes)) matches Some(moved) ==> holds_same(
            old,
            new,
            anchor,
            moved,
        ),
{
    law_line_map_joins_equal_lines(old, new, changes);
}

proof fn lemma_mapped_cursor(
    old: Seq<Seq<char>>,
    new: Seq<Seq<char>>,
    changes: Seq<LineChange>,
    cursor: Cursor,
)
    requires
        is_edit_script(old, new, changes),
        new.len() <= usize::MAX,
    ensures
        cursor_mapped(cursor, line_map(changes)) matches Some(moved) ==> hold_same(
            old,
            new,
            cursor_anchors(cursor),
            cursor_anchors(moved),
        ),
{
    match cursor {
        Cursor::BeforeAnchor { anchor } => lemma_mapped_anchor(old, new, changes, anchor),
        Cursor::AfterAnchor { anchor } => lemma_mapped_anchor(old, new, changes, anchor),
        _ => {},
    }
}

proof fn lemma_mapped_range(
    old: Seq<Seq<char>>,
    new: Seq<Seq<char>>,
    changes: Seq<LineChange>,
    range: ParsedRange,
)
    requires
        is_edit_script(old, new, changes),
        new.len() <= usize::MAX,
    ensures
        range_mapped(range, line_map(changes)) matches Some(moved) ==> hold_same(
            old,
            new,
            seq![range.start, range.end],
            seq![moved.start, moved.end],
        ),
{
    lemma_mapped_anchor(old, new, changes, range.start);
    lemma_mapped_anchor(old, new, changes, range.end);
}

/// An edit that was carried over names, in the live text, lines that hold what the lines it named in
/// the snapshot held, as many of them and in the same order.
pub proof fn law_carried_edit_names_equal_lines(
    old: Seq<Seq<char>>,
    new: Seq<Seq<char>>,
    changes: Seq<LineChange>,
    edit: EditView,
)
    requires
        is_edit_script(old, new, changes),
        new.len() <= usize::MAX,
    ensures
        edit_mapped(edit, line_map(changes)) matches Some(moved) ==> hold_same(
            old,
            new,
            edit.anchors(),
            moved.anchors(),
        ),
{
    match edit {
        EditView::Insert { cursor, .. } => lemma_mapped_cursor(old, new, changes, cursor),
        EditView::Delete { anchor, .. } => lemma_mapped_anchor(old, new, changes, anchor),
        EditView::Cut { range, .. } => lemma_mapped_range(old, new, changes, range),
        EditView::Paste { at: PasteTarget::Gap { cursor }, .. } => {
            lemma_mapped_cursor(old, new, changes, cursor)
        },
        EditView::Paste { at: PasteTarget::Span { range }, .. } => {
            lemma_mapped_range(old, new, changes, range)
        },
        EditView::Block { anchor, .. } => lemma_mapped_anchor(old, new, changes, anchor),
    }
}

/// What a recovery gives is the live text with all edits carried out on it, each on lines that hold
/// what the lines it was made for held in the snapshot.
pub proof fn law_recovered_edits_land_on_equal_lines(
    store: StoreView,
    path: Seq<char>,
    current: Seq<char>,
    hash: Seq<char>,
    edits: Seq<EditView>,
    clip: ClipboardView,
)
    requires
        lines_of(current).len() <= usize::MAX,
    ensures
        recovered(store, path, current, hash, edits, clip).0 matches Some((view, _)) ==> {
            let old = lines_of(found(store, path, Sought::Hash(hash))->0.text);
            exists|moved: Seq<EditView>|
                {
                    &&& moved.len() == edits.len()
                    &&& #[trigger] applied(current, moved, clip).0 == Ok::<ApplyView, Seq<char>>(
                        view,
                    )
                    &&& forall|i: int|
                        0 <= i < edits.len() ==> hold_same(
                            old,
                            lines_of(current),
                            edits[i].anchors(),
                            (#[trigger] moved[i]).anchors(),
                        )
                }
        },
{
    if recovered(store, path, current, hash, edits, clip).0 is Some {
        let old = lines_of(found(store, path, Sought::Hash(hash))->0.text);
        let changes = changes_since(store, path, current, hash);
        let moved = carried_over(old, changes, edits)->0;
        lemma_edits_mapped(edits, line_map(changes));
        assert forall|i: int| 0 <= i < edits.len() implies hold_same(
            old,
            lines_of(current),
            edits[i].anchors(),
            (#[trigger] moved[i]).anchors(),
        ) by {
            law_carried_edit_names_equal_lines(old, lines_of(current), changes, edits[i]);
        }
    }
}

pub proof fn lemma_edits_mapped(edits: Seq<EditView>, map: Seq<Option<nat>>)
    ensures
        edits_mapped(edits, map) matches Some(moved) ==> moved.len() == edits.len() && forall|i: int|
            #![trigger moved[i]]
            0 <= i < edits.len() ==> edit_mapped(edits[i], map) == Some(moved[i]),
    decreases edits.len(),
{
    if edits.len() > 0 {
        lemma_edits_mapped(edits.drop_last(), map);
        if let Some(front) = edits_mapped(edits.drop_last(), map) {
            if let Some(last) = edit_mapped(edits.last(), map) {
                let moved = front.push(last);
                assert forall|i: int| 0 <= i < edits.len() implies edit_mapped(edits[i], map)
                    == Some(#[trigger] moved[i]) by {
                    if i < edits.len() - 1 {
                        assert(moved[i] == front[i]);
                        assert(edits.drop_last()[i] == edits[i]);
                    }
                }
            }
        }
    }
}

proof fn lemma_anchors_of_edit(edits: Seq<EditView>, i: int, k: int)
    requires
        0 <= i < edits.len(),
        0 <= k < edits[i].anchors().len(),
    ensures
        exists|n: int|
            0 <= n < anchors_of(edits).len() && #[trigger] anchors_of(edits)[n]
                == edits[i].anchors()[k],
{
    lemma_anchors_split(edits, i);
    lemma_anchors_split(edits.skip(i), 1);
    assert(edits.skip(i).take(1).drop_last() =~= seq![]);
    assert(edits.skip(i).take(1).last() == edits[i]);
    reveal_with_fuel(anchors_of, 2);
    assert(anchors_of(edits.skip(i).take(1)) =~= edits[i].anchors());
    let n = anchors_of(edits.take(i)).len() + k;
    assert(anchors_of(edits)[n] == edits[i].anchors()[k]);
}

/// Cuts that run forward still do once they were carried over.
proof fn lemma_carried_cuts_run_forward(
    old: Seq<Seq<char>>,
    new: Seq<Seq<char>>,
    changes: Seq<LineChange>,
    edits: Seq<EditView>,
)
    requires
        is_edit_script(old, new, changes),
        new.len() <= usize::MAX,
        cuts_run_forward(edits),
    ensures
        carried_over(old, changes, edits) matches Some(moved) ==> cuts_run_forward(moved),
{
    let map = line_map(changes);
    let anchors = anchors_of(edits);
    law_line_map_joins_equal_lines(old, new, changes);
    lemma_edits_mapped(edits, map);
    if let Some(moved) = carried_over(old, changes, edits) {
        assert forall|i: int| 0 <= i < moved.len() && (#[trigger] moved[i]) is Cut implies
            moved[i]->Cut_range.start.line <= moved[i]->Cut_range.end.line + 1 by {
            assert(edit_mapped(edits[i], map) == Some(moved[i]));
            assert(edits[i] is Cut);
            let range = edits[i]->Cut_range;
            lemma_anchors_of_edit(edits, i, 0);
            lemma_anchors_of_edit(edits, i, 1);
            let a = choose|n: int|
                0 <= n < anchors.len() && #[trigger] anchors[n] == edits[i].anchors()[0];
            let b = choose|n: int|
                0 <= n < anchors.len() && #[trigger] anchors[n] == edits[i].anchors()[1];
            assert(mapped(map, anchors[a].line as nat)->0 - anchors[a].line == mapped(
                map,
                anchors[b].line as nat,
            )->0 - anchors[b].line);
        }
    }
}

/// Cuts that run forward can be captured, wherever a run stands.
pub proof fn lemma_forward_cuts_can_apply(
    text: Seq<char>,
    edits: Seq<EditView>,
    clip: ClipboardView,
)
    requires
        cuts_run_forward(edits),
    ensures
        can_apply(text, edits, clip),
{
}

/// Edits whose cuts run forward can be tried on any live text.
pub proof fn lemma_forward_cuts_can_recover(
    store: StoreView,
    path: Seq<char>,
    current: Seq<char>,
    hash: Seq<char>,
    edits: Seq<EditView>,
    clip: ClipboardView,
)
    requires
        cuts_run_forward(edits),
    ensures
        can_recover(store, path, current, hash, edits, clip),
{
    if may_recover(store, path, current, hash) && leads_to_live(store, path, current, hash)
        && lines_of(current).len() <= usize::MAX {
        let old = lines_of(found(store, path, Sought::Hash(hash))->0.text);
        let changes = changes_since(store, path, current, hash);
        lemma_carried_cuts_run_forward(old, lines_of(current), changes, edits);
        if let Some(moved) = carried_over(old, changes, edits) {
            lemma_forward_cuts_can_apply(current, moved, clip);
        }
    }
}

// ---------------------------------------------------------------------------------------------
// Executable functions

/// The line map that a diff gives.
pub fn build_line_map(changes: &[LineChange]) -> (map: Vec<Option<usize>>)
    ensures
        map_views(map@) == line_map(changes@),
{
    let mut map: Vec<Option<usize>> = Vec::new();
    let mut new_line: usize = 0;
    let mut i: usize = 0;
    proof {
        assert(changes@.take(0) =~= seq![]);
        assert(map_views(map@) =~= seq![]);
    }
    while i < changes.len()
        invariant
            i <= changes.len(),
            new_line <= i,
            new_line == new_lines(changes@.take(i as int)),
            map_views(map@) == line_map(changes@.take(i as int)),
        decreases changes.len() - i,
    {
        proof {
            assert(changes@.take(i + 1).drop_last() =~= changes@.take(i as int));
            assert(changes@.take(i + 1).last() == changes@[i as int]);
        }
        let ghost had = map_views(map@);
        match changes[i] {
            LineChange::Equal => {
                new_line += 1;
                map.push(Some(new_line));
                proof {
                    assert(map_views(map@) =~= had.push(Some(new_line as nat)));
                }
            },
            LineChange::Delete => {
                map.push(None);
                proof {
                    assert(map_views(map@) =~= had.push(None));
                }
            },
            LineChange::Insert => {
                new_line += 1;
            },
        }
        i += 1;
    }
    proof {
        assert(changes@.take(i as int) =~= changes@);
    }
    map
}

fn lookup(map: &[Option<usize>], line: usize) -> (r: Option<usize>)
    ensures
        match r {
            Some(n) => mapped(map_views(map@), line as nat) == Some(n as nat),
            None => mapped(map_views(map@), line as nat) is None,
        },
{
    if 1 <= line && line <= map.len() {
        map[line - 1]
    } else {
        None
    }
}

fn remap_anchor(anchor: Anchor, map: &[Option<usize>]) -> (r: Option<Anchor>)
    ensures
        r == anchor_mapped(anchor, map_views(map@)),
{
    match lookup(map, anchor.line) {
        Some(line) => Some(Anchor { line }),
        None => None,
    }
}

fn remap_cursor(cursor: Cursor, map: &[Option<usize>]) -> (r: Option<Cursor>)
    ensures
        r == cursor_mapped(cursor, map_views(map@)),
{
    match cursor {
        Cursor::Bof => Some(Cursor::Bof),
        Cursor::Eof => Some(Cursor::Eof),
        Cursor::BeforeAnchor { anchor } => match remap_anchor(anchor, map) {
            Some(anchor) => Some(Cursor::BeforeAnchor { anchor }),
            None => None,
        },
        Cursor::AfterAnchor { anchor } => match remap_anchor(anchor, map) {
            Some(anchor) => Some(Cursor::AfterAnchor { anchor }),
            None => None,
        },
    }
}

fn remap_range(range: ParsedRange, map: &[Option<usize>]) -> (r: Option<ParsedRange>)
    ensures
        r == range_mapped(range, map_views(map@)),
{
    match (remap_anchor(range.start, map), remap_anchor(range.end, map)) {
        (Some(start), Some(end)) => Some(ParsedRange { start, end }),
        _ => None,
    }
}

fn remap_start(start: Option<usize>, map: &[Option<usize>]) -> (r: Option<usize>)
    ensures
        r == start_mapped(start, map_views(map@)),
{
    match start {
        Some(line) => lookup(map, line),
        None => None,
    }
}

fn remap_target(at: PasteTarget, map: &[Option<usize>]) -> (r: Option<PasteTarget>)
    ensures
        r == match at {
            PasteTarget::Gap { cursor } => match cursor_mapped(cursor, map_views(map@)) {
                Some(cursor) => Some(PasteTarget::Gap { cursor }),
                None => None,
            },
            PasteTarget::Span { range } => match range_mapped(range, map_views(map@)) {
                Some(range) => Some(PasteTarget::Span { range }),
                None => None,
            },
        },
{
    match at {
        PasteTarget::Gap { cursor } => match remap_cursor(cursor, map) {
            Some(cursor) => Some(PasteTarget::Gap { cursor }),
            None => None,
        },
        PasteTarget::Span { range } => match remap_range(range, map) {
            Some(range) => Some(PasteTarget::Span { range }),
            None => None,
        },
    }
}

fn remap_edit(edit: &Edit, map: &[Option<usize>]) -> (r: Option<Edit>)
    ensures
        match r {
            Some(moved) => edit_mapped(edit@, map_views(map@)) == Some(moved@),
            None => edit_mapped(edit@, map_views(map@)) is None,
        },
{
    match edit {
        Edit::Insert { cursor, text, line_num, index, replacement, block_start } => {
            match remap_cursor(*cursor, map) {
                Some(cursor) => Some(
                    Edit::Insert {
                        cursor,
                        text: text.clone(),
                        line_num: *line_num,
                        index: *index,
                        replacement: *replacement,
                        block_start: remap_start(*block_start, map),
                    },
                ),
                None => None,
            }
        },
        Edit::Delete { anchor, line_num, index } => match remap_anchor(*anchor, map) {
            Some(anchor) => Some(
                Edit::Delete { anchor, line_num: *line_num, index: *index },
            ),
            None => None,
        },
        Edit::Cut { range, register, line_num, index } => match remap_range(*range, map) {
            Some(range) => Some(
                Edit::Cut {
                    range,
                    register: copy_opt_string(register),
                    line_num: *line_num,
                    index: *index,
                },
            ),
            None => None,
        },
        Edit::Paste { at, register, line_num, index, block_start } => {
            match remap_target(*at, map) {
                Some(at) => Some(
                    Edit::Paste {
                        at,
                        register: copy_opt_string(register),
                        line_num: *line_num,
                        index: *index,
                        block_start: remap_start(*block_start, map),
                    },
                ),
                None => None,
            }
        },
        Edit::Block { .. } => None,
    }
}

fn remap_edits(edits: &[Edit], map: &[Option<usize>]) -> (r: Option<Vec<Edit>>)
    ensures
        match r {
            Some(moved) => edits_mapped(edit_views(edits@), map_views(map@)) == Some(
                edit_views(moved@),
            ),
            None => edits_mapped(edit_views(edits@), map_views(map@)) is None,
        },
{
    let ghost all = edit_views(edits@);
    let ghost m = map_views(map@);
    let mut out: Vec<Edit> = Vec::new();
    let mut i: usize = 0;
    proof {
        assert(all.take(0) =~= seq![]);
        assert(edit_views(out@) =~= seq![]);
    }
    while i < edits.len()
        invariant
            i <= edits.len(),
            all == edit_views(edits@),
            m == map_views(map@),
            edits_mapped(all.take(i as int), m) == Some(edit_views(out@)),
        decreases edits.len() - i,
    {
        proof {
            assert(all.take(i + 1).drop_last() =~= all.take(i as int));
            assert(all.take(i + 1).last() == edits@[i as int]@);
        }
        match remap_edit(&edits[i], map) {
            Some(moved) => {
                let ghost had = edit_views(out@);
                out.push(moved);
                proof {
                    assert(edit_views(out@) =~= had.push(moved@));
                }
            },
            None => {
                proof {
                    lemma_unmapped_stays(all, m, i + 1);
                }
                return None;
            },
        }
        i += 1;
    }
    proof {
        assert(all.take(i as int) =~= all);
    }
    Some(out)
}

proof fn lemma_unmapped_stays(edits: Seq<EditView>, map: Seq<Option<nat>>, i: int)
    requires
        0 <= i <= edits.len(),
        edits_mapped(edits.take(i), map) is None,
    ensures
        edits_mapped(edits, map) is None,
    decreases edits.len(),
{
    if i < edits.len() {
        assert(edits.drop_last().take(i) =~= edits.take(i));
        lemma_unmapped_stays(edits.drop_last(), map, i);
    } else {
        assert(edits.take(i) =~= edits);
    }
}

/// The lines that the edits name, in order.
pub(crate) fn collect_anchors(edits: &[Edit]) -> (out: Vec<Anchor>)
    ensures
        out@ == anchors_of(edit_views(edits@)),
{
    let ghost all = edit_views(edits@);
    let mut out: Vec<Anchor> = Vec::new();
    let mut i: usize = 0;
    proof {
        assert(all.take(0) =~= seq![]);
    }
    while i < edits.len()
        invariant
            i <= edits.len(),
            all == edit_views(edits@),
            out@ == anchors_of(all.take(i as int)),
        decreases edits.len() - i,
    {
        proof {
            assert(all.take(i + 1).drop_last() =~= all.take(i as int));
            assert(all.take(i + 1).last() == edits@[i as int]@);
        }
        let mut more = edits[i].anchors();
        out.append(&mut more);
        i += 1;
    }
    proof {
        assert(all.take(i as int) =~= all);
    }
    out
}

fn uniform_offsets(anchors: &[Anchor], map: &[Option<usize>]) -> (yes: bool)
    ensures
        yes == is_uniform(anchors@, map_views(map@)),
{
    let ghost m = map_views(map@);
    if anchors.len() == 0 {
        return true;
    }
    let first = anchors[0].line;
    let first_mapped = match lookup(map, first) {
        Some(n) => n,
        None => {
            assert(mapped(m, anchors@[0].line as nat) is None);
            return false;
        },
    };
    let mut i: usize = 0;
    while i < anchors.len()
        invariant
            i <= anchors.len(),
            anchors@.len() > 0,
            m == map_views(map@),
            first == anchors@[0].line,
            mapped(m, first as nat) == Some(first_mapped as nat),
            forall|k: int|
                0 <= k < i ==> mapped(m, (#[trigger] anchors@[k]).line as nat) is Some && mapped(
                    m,
                    anchors@[k].line as nat,
                )->0 - anchors@[k].line == first_mapped - first,
        decreases anchors.len() - i,
    {
        let line = anchors[i].line;
        match lookup(map, line) {
            None => {
                proof {
                    assert(mapped(m, anchors@[i as int].line as nat) is None);
                }
                return false;
            },
            Some(n) => {
                if n as i128 - line as i128 != first_mapped as i128 - first as i128 {
                    proof {
                        let a = anchors@[i as int];
                        let b = anchors@[0];
                        assert(mapped(m, a.line as nat)->0 - a.line != mapped(m, b.line as nat)->0
                            - b.line);
                    }
                    return false;
                }
            },
        }
        i += 1;
    }
    true
}

/// Which of the lines one to `count` are anchors.
spec fn marks_anchors(named: Seq<bool>, anchors: Seq<Anchor>, count: nat) -> bool {
    &&& named.len() == count
    &&& forall|line: nat|
        1 <= line <= count ==> #[trigger] named[line - 1] == is_anchor_line(anchors, line)
}

fn mark_anchors(anchors: &[Anchor], count: usize) -> (named: Vec<bool>)
    ensures
        marks_anchors(named@, anchors@, count as nat),
{
    let mut named: Vec<bool> = Vec::new();
    let mut n: usize = 0;
    while n < count
        invariant
            n <= count,
            named@.len() == n,
            forall|k: int| 0 <= k < n ==> !#[trigger] named@[k],
        decreases count - n,
    {
        named.push(false);
        n += 1;
    }
    let mut i: usize = 0;
    while i < anchors.len()
        invariant
            i <= anchors.len(),
            named@.len() == count,
            forall|k: int|
                0 <= k < count ==> #[trigger] named@[k] == exists|j: int|
                    0 <= j < i && (#[trigger] anchors@[j]).line == k + 1,
        decreases anchors.len() - i,
    {
        let line = anchors[i].line;
        let ghost before = named@;
        if 1 <= line && line <= count {
            named.set(line - 1, true);
        }
        proof {
            assert forall|k: int| 0 <= k < count implies #[trigger] named@[k] == exists|j: int|
                0 <= j < i + 1 && (#[trigger] anchors@[j]).line == k + 1 by {
                assert(before[k] == exists|j: int|
                    0 <= j < i && (#[trigger] anchors@[j]).line == k + 1);
                if k + 1 == line {
                    assert(anchors@[i as int].line == k + 1);
                } else {
                    assert(named@[k] == before[k]);
                }
            }
        }
        i += 1;
    }
    proof {
        assert forall|line: nat| 1 <= line <= count implies #[trigger] named@[line - 1]
            == is_anchor_line(anchors@, line) by {
            assert(named@[line - 1] == exists|j: int|
                0 <= j < anchors@.len() && (#[trigger] anchors@[j]).line == line - 1 + 1);
        }
    }
    named
}

fn distance_kept(old: &[String], map: &[Option<usize>], line: usize, other: usize) -> (yes: bool)
    requires
        1 <= line <= old@.len(),
        1 <= other <= old@.len(),
    ensures
        yes == kept_distance(strs(old@), map_views(map@), line as nat, other as nat),
{
    let a = match lookup(map, line) {
        Some(n) => n,
        None => {
            return true;
        },
    };
    let b = match lookup(map, other) {
        Some(n) => n,
        None => {
            return true;
        },
    };
    if a as i128 - b as i128 == line as i128 - other as i128 {
        return true;
    }
    proof {
        assert(strs(old@)[line - 1] == old@[line - 1]@);
        assert(strs(old@)[other - 1] == old@[other - 1]@);
    }
    !same_text(old[line - 1].as_str(), old[other - 1].as_str())
}

fn validate_neighbors(old: &[String], map: &[Option<usize>], anchors: &[Anchor]) -> (yes: bool)
    requires
        is_uniform(anchors@, map_views(map@)),
        map@.len() == old@.len(),
    ensures
        yes == all_neighbours_agree(strs(old@), map_views(map@), anchors@),
{
    let count = old.len();
    let named = mark_anchors(anchors, count);
    let ghost texts = strs(old@);
    let ghost m = map_views(map@);
    let mut i: usize = 0;
    while i < anchors.len()
        invariant
            i <= anchors.len(),
            count == old@.len(),
            map@.len() == count,
            texts == strs(old@),
            m == map_views(map@),
            is_uniform(anchors@, m),
            marks_anchors(named@, anchors@, count as nat),
            forall|k: int|
                0 <= k < i ==> neighbours_agree(
                    texts,
                    m,
                    anchors@,
                    (#[trigger] anchors@[k]).line as nat,
                ),
        decreases anchors.len() - i,
    {
        let line = anchors[i].line;
        proof {
            assert(mapped(m, anchors@[i as int].line as nat) is Some);
        }
        let mut above = line - 1;
        while above >= 1 && named[above - 1]
            invariant
                above < line <= count,
                count == named@.len(),
                marks_anchors(named@, anchors@, count as nat),
                free_above(anchors@, (line - 1) as nat) == free_above(anchors@, above as nat),
            decreases above,
        {
            proof {
                assert(named@[above as nat - 1] == is_anchor_line(anchors@, above as nat));
            }
            above -= 1;
        }
        proof {
            if above >= 1 {
                assert(named@[above as nat - 1] == is_anchor_line(anchors@, above as nat));
            }
        }
        if above >= 1 && !distance_kept(old, map, line, above) {
            return false;
        }
        let mut below = line;
        while below < count && named[below]
            invariant
                line <= below <= count,
                count == named@.len(),
                marks_anchors(named@, anchors@, count as nat),
                free_below(anchors@, line as nat + 1, count as nat) == free_below(
                    anchors@,
                    below as nat + 1,
                    count as nat,
                ),
            decreases count - below,
        {
            proof {
                assert(named@[(below as nat + 1) - 1] == is_anchor_line(
                    anchors@,
                    below as nat + 1,
                ));
            }
            below += 1;
        }
        proof {
            if below < count {
                assert(named@[(below as nat + 1) - 1] == is_anchor_line(
                    anchors@,
                    below as nat + 1,
                ));
            }
        }
        if below < count && !distance_kept(old, map, line, below + 1) {
            return false;
        }
        i += 1;
    }
    true
}

/// Carry edits over to the new text, given the line diff.
pub fn carry_over(old: &[String], changes: &[LineChange], edits: &[Edit]) -> (r: Option<Vec<Edit>>)
    requires
        line_map(changes@).len() == old@.len(),
    ensures
        match r {
            Some(moved) => carried_over(strs(old@), changes@, edit_views(edits@)) == Some(
                edit_views(moved@),
            ),
            None => carried_over(strs(old@), changes@, edit_views(edits@)) is None,
        },
{
    let map = build_line_map(changes);
    let anchors = collect_anchors(edits);
    if !uniform_offsets(anchors.as_slice(), map.as_slice()) {
        return None;
    }
    if !validate_neighbors(old, map.as_slice(), anchors.as_slice()) {
        return None;
    }
    remap_edits(edits, map.as_slice())
}

/// Whether a result agrees with what the model says of a recovery.
pub open spec fn recovery_result(
    r: Option<RecoveryResult>,
    expected: Option<(ApplyView, Seq<char>)>,
) -> bool {
    match r {
        Some(done) => expected == Some((done.apply@, done.warning@)),
        None => expected is None,
    }
}

fn recovery_message(store: &SnapshotStore, path: &str, file_hash: &str, previous: &str) -> (out:
    String)
    requires
        found(store@, path@, Sought::Hash(file_hash@)) is Some,
        found(store@, path@, Sought::Hash(file_hash@))->0.text == previous@,
    ensures
        out@ == recovery_warning(store@, path@, file_hash@),
{
    let is_head = match store.head(path) {
        Some(head) => same_text(head.text.as_str(), previous),
        None => false,
    };
    let mut out = "stale tag ".to_owned();
    out.append(file_hash);
    if is_head {
        out.append(": file drifted outside this session; remapped anchors");
    } else {
        out.append(": remapped anchors from a prior in-session edit");
    }
    out
}

/// What `try_recover` does once it has the line diff between the snapshot with the tag and the live
/// text.
pub fn recover_by(
    changes: &[LineChange],
    store: &SnapshotStore,
    path: &str,
    current_text: &str,
    file_hash: &str,
    edits: &[Edit],
    clipboard: &mut Clipboard,
) -> (r: Option<RecoveryResult>)
    requires
        found(store@, path@, Sought::Hash(file_hash@)) is Some,
        is_edit_script(
            lines_of(found(store@, path@, Sought::Hash(file_hash@))->0.text),
            lines_of(current_text@),
            changes@,
        ),
        can_recover_by(
            changes@,
            found(store@, path@, Sought::Hash(file_hash@))->0.text,
            current_text@,
            edit_views(edits@),
            old(clipboard)@,
        ),
    ensures
        ({
            let (expected, after) = recovered_by(
                changes@,
                store@,
                path@,
                current_text@,
                file_hash@,
                edit_views(edits@),
                old(clipboard)@,
            );
            &&& recovery_result(r, expected)
            &&& final(clipboard)@ == after
        }),
{
    let snapshot = match store.by_hash(path, file_hash) {
        Some(snapshot) => snapshot,
        None => {
            return None;
        },
    };
    let previous = snapshot.text.as_str();
    let old_lines = split_lines(chars_of(previous).as_slice());
    let new_lines = split_lines(chars_of(current_text).as_slice());
    proof {
        assert(strs(old_lines@).len() == old_lines@.len());
        assert(strs(new_lines@).len() == new_lines@.len());
        assert(new_lines@.len() == new_lines.len());
        law_line_map_joins_equal_lines(strs(old_lines@), strs(new_lines@), changes@);
    }
    let moved = match carry_over(old_lines.as_slice(), changes, edits) {
        Some(moved) => moved,
        None => {
            return None;
        },
    };
    match apply_edits(current_text, moved.as_slice(), Some(clipboard)) {
        Err(_) => None,
        Ok(apply) => {
            if same_text(apply.text.as_str(), current_text) {
                return None;
            }
            let warning = recovery_message(store, path, file_hash, previous);
            Some(RecoveryResult { apply, warning })
        },
    }
}

/// Apply edits that were made for a snapshot to the live text, where every line that they name can
/// be found again in it.
pub fn try_recover(
    store: &SnapshotStore,
    path: &str,
    current_text: &str,
    file_hash: &str,
    edits: &[Edit],
    clipboard: &mut Clipboard,
) -> (r: Option<RecoveryResult>)
    requires
        can_recover(
            store@,
            path@,
            current_text@,
            file_hash@,
            edit_views(edits@),
            old(clipboard)@,
        ),
    ensures
        ({
            let (expected, after) = recovered(
                store@,
                path@,
                current_text@,
                file_hash@,
                edit_views(edits@),
                old(clipboard)@,
            );
            &&& recovery_result(r, expected)
            &&& final(clipboard)@ == after
        }),
        may_recover(store@, path@, current_text@, file_hash@) ==> leads_to_live(
            store@,
            path@,
            current_text@,
            file_hash@,
        ),
{
    let snapshot = match store.by_hash(path, file_hash) {
        Some(snapshot) => snapshot,
        None => {
            return None;
        },
    };
    let previous = snapshot.text.as_str();
    if same_text(previous, current_text) {
        return None;
    }
    let old_lines = split_lines(chars_of(previous).as_slice());
    let new_lines = split_lines(chars_of(current_text).as_slice());
    proof {
        assert(strs(new_lines@).len() == new_lines.len());
    }
    if !can_number_lines(old_lines.as_slice(), new_lines.as_slice()) {
        return None;
    }
    let changes = diff_lines(old_lines.as_slice(), new_lines.as_slice());
    recover_by(changes.as_slice(), store, path, current_text, file_hash, edits, clipboard)
}

} // verus!
