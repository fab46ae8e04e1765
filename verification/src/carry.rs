//! How edits made for one text are carried over to another: what line became what, which edits can
//! be carried over, and what they are then.

use crate::apply::{anchors_of, applied, replacing};
use crate::arrangement::{law_rows_go_into_gap, law_rows_replace_lines};
use crate::recovery::{
    all_neighbours_agree, anchor_mapped, carried_over, cursor_mapped, edit_mapped, edits_mapped,
    free_above, free_below, is_anchor_line, is_edit_script, is_uniform, kept_distance,
    law_line_map_joins_equal_lines, lemma_edits_mapped, line_changes, line_map, mapped,
    neighbours_agree, new_lines, range_mapped, recovered, recovered_by, start_mapped, LineChange,
};
use crate::snapshots::{found, head_of, Sought, StoreView};
use crate::text::{join_lines, lines_of};
use crate::types::{
    inserts, Anchor, ApplyView, ClipboardView, Cursor, EditView, ParsedRange, PasteTarget,
};
use vstd::prelude::*;

verus! {

/// How many lines of the old text the first `k` changes pass over.
pub open spec fn old_passed(changes: Seq<LineChange>, k: int) -> nat {
    changes.take(k).filter(|c: LineChange| c != LineChange::Insert).len()
}

/// How many lines of the new text the first `k` changes pass over.
pub open spec fn new_passed(changes: Seq<LineChange>, k: int) -> nat {
    changes.take(k).filter(|c: LineChange| c != LineChange::Delete).len()
}

/// Line `a` of the old text became line `b` of the new one: one of the changes passes over both at
/// once and finds them equal.
pub open spec fn became(changes: Seq<LineChange>, a: int, b: int) -> bool {
    exists|k: int|
        0 <= k < changes.len() && #[trigger] changes[k] == LineChange::Equal && a == old_passed(
            changes,
            k,
        ) + 1 && b == new_passed(changes, k) + 1
}

/// A gap at a line became the gap on the same side of what the line became. The head and the tail
/// stay what they are.
pub open spec fn cursor_became(changes: Seq<LineChange>, from: Cursor, to: Cursor) -> bool {
    match (from, to) {
        (Cursor::Bof, Cursor::Bof) => true,
        (Cursor::Eof, Cursor::Eof) => true,
        (Cursor::BeforeAnchor { anchor: a }, Cursor::BeforeAnchor { anchor: b }) => became(
            changes,
            a.line as int,
            b.line as int,
        ),
        (Cursor::AfterAnchor { anchor: a }, Cursor::AfterAnchor { anchor: b }) => became(
            changes,
            a.line as int,
            b.line as int,
        ),
        _ => false,
    }
}

pub open spec fn range_became(changes: Seq<LineChange>, from: ParsedRange, to: ParsedRange) -> bool {
    became(changes, from.start.line as int, to.start.line as int) && became(
        changes,
        from.end.line as int,
        to.end.line as int,
    )
}

/// The line that an edit remembers as the start of its block, which may be gone.
pub open spec fn start_became(
    changes: Seq<LineChange>,
    from: Option<usize>,
    to: Option<usize>,
) -> bool {
    match (from, to) {
        (Some(a), Some(b)) => became(changes, a as int, b as int),
        (Some(a), None) => forall|b: int| !became(changes, a as int, b),
        (None, Some(_)) => false,
        (None, None) => true,
    }
}

/// One edit is the other on the lines that its lines became: of the same kind, on the same side of
/// them, with the same text, register and numbers.
pub open spec fn edit_became(changes: Seq<LineChange>, from: EditView, to: EditView) -> bool {
    match (from, to) {
        (
            EditView::Insert { cursor, text, line_num, index, replacement, block_start },
            EditView::Insert {
                cursor: c,
                text: t,
                line_num: l,
                index: i,
                replacement: r,
                block_start: b,
            },
        ) => cursor_became(changes, cursor, c) && t == text && l == line_num && i == index && r
            == replacement && start_became(changes, block_start, b),
        (
            EditView::Delete { anchor, line_num, index },
            EditView::Delete { anchor: a, line_num: l, index: i },
        ) => became(changes, anchor.line as int, a.line as int) && l == line_num && i == index,
        (
            EditView::Cut { range, register, line_num, index },
            EditView::Cut { range: s, register: r, line_num: l, index: i },
        ) => range_became(changes, range, s) && r == register && l == line_num && i == index,
        (
            EditView::Paste { at, register, line_num, index, block_start },
            EditView::Paste { at: a, register: r, line_num: l, index: i, block_start: b },
        ) => r == register && l == line_num && i == index && start_became(changes, block_start, b)
            && match (at, a) {
            (PasteTarget::Gap { cursor }, PasteTarget::Gap { cursor: c }) => cursor_became(
                changes,
                cursor,
                c,
            ),
            (PasteTarget::Span { range }, PasteTarget::Span { range: s }) => range_became(
                changes,
                range,
                s,
            ),
            _ => false,
        },
        _ => false,
    }
}

/// Some edit names the line.
pub open spec fn names_line(edits: Seq<EditView>, line: int) -> bool {
    exists|i: int, k: int|
        0 <= i < edits.len() && 0 <= k < (#[trigger] edits[i].anchors()).len()
            && #[trigger] edits[i].anchors()[k].line == line
}

/// The edits can be carried over by `distance`: none of them stands for a block, every line that
/// they name became the line that far away, and the nearest line on either side that they do not
/// name, if it holds the same as the named one, did not move by another distance. So no line can
/// have been taken for one like it.
pub open spec fn moves_by(
    old: Seq<Seq<char>>,
    changes: Seq<LineChange>,
    edits: Seq<EditView>,
    distance: int,
) -> bool {
    &&& forall|i: int| 0 <= i < edits.len() ==> !((#[trigger] edits[i]) is Block)
    &&& forall|n: int| #[trigger]
        names_line(edits, n) ==> became(changes, n, n + distance)
    &&& forall|n: int, m: int, b: int|
        #![trigger names_line(edits, n), became(changes, m, b)]
        {
            &&& names_line(edits, n)
            &&& 1 <= m <= old.len()
            &&& !names_line(edits, m)
            &&& forall|between: int|
                n < between < m || m < between < n ==> names_line(edits, between)
            &&& old[m - 1] == old[n - 1]
            &&& became(changes, m, b)
        } ==> b == m + distance
}

// ---------------------------------------------------------------------------------------------
// What line became what

proof fn lemma_passed_step(changes: Seq<LineChange>)
    requires
        changes.len() > 0,
    ensures
        ({
            let front = changes.drop_last();
            let n = changes.len() as int;
            &&& old_passed(changes, n) == old_passed(front, n - 1) + if changes.last()
                == LineChange::Insert {
                0int
            } else {
                1
            }
            &&& new_passed(changes, n) == new_passed(front, n - 1) + if changes.last()
                == LineChange::Delete {
                0int
            } else {
                1
            }
            &&& forall|k: int|
                0 <= k < n ==> #[trigger] old_passed(changes, k) == old_passed(front, k)
            &&& forall|k: int|
                0 <= k < n ==> #[trigger] new_passed(changes, k) == new_passed(front, k)
        }),
{
    reveal(Seq::filter);
    let front = changes.drop_last();
    let n = changes.len() as int;
    assert(changes.take(n) =~= changes);
    assert(front.take(n - 1) =~= front);
    assert forall|k: int| 0 <= k < n implies #[trigger] changes.take(k) == front.take(k) by {
        assert(changes.take(k) =~= front.take(k));
    }
}

proof fn lemma_line_map_counts(changes: Seq<LineChange>)
    ensures
        line_map(changes).len() == old_passed(changes, changes.len() as int),
        new_lines(changes) == new_passed(changes, changes.len() as int),
        forall|k: int|
            0 <= k < changes.len() && #[trigger] changes[k] == LineChange::Equal ==> {
                &&& old_passed(changes, k) < line_map(changes).len()
                &&& line_map(changes)[old_passed(changes, k) as int] == Some(
                    (new_passed(changes, k) + 1) as nat,
                )
            },
        forall|i: int|
            0 <= i < line_map(changes).len() && (#[trigger] line_map(changes)[i]) is Some
                ==> became(changes, i + 1, line_map(changes)[i]->0 as int),
    decreases changes.len(),
{
    if changes.len() > 0 {
        let front = changes.drop_last();
        let n = changes.len() as int;
        lemma_line_map_counts(front);
        lemma_passed_step(changes);
        let map = line_map(changes);
        let less = line_map(front);
        assert(old_passed(changes, n - 1) == old_passed(front, n - 1));
        assert(new_passed(changes, n - 1) == new_passed(front, n - 1));
        assert forall|k: int|
            0 <= k < n && #[trigger] changes[k] == LineChange::Equal implies old_passed(changes, k)
            < map.len() && map[old_passed(changes, k) as int] == Some(
            (new_passed(changes, k) + 1) as nat,
        ) by {
            if k < n - 1 {
                assert(front[k] == changes[k]);
            }
        }
        assert forall|i: int| 0 <= i < map.len() && (#[trigger] map[i]) is Some implies became(
            changes,
            i + 1,
            map[i]->0 as int,
        ) by {
            if i < less.len() {
                assert(map[i] == less[i]);
                let k = choose|k: int|
                    0 <= k < front.len() && #[trigger] front[k] == LineChange::Equal && i + 1
                        == old_passed(front, k) + 1 && map[i]->0 == new_passed(front, k) + 1;
                assert(changes[k] == front[k]);
            } else {
                assert(changes[n - 1] == LineChange::Equal);
            }
        }
    } else {
        reveal(Seq::filter);
        assert(changes.take(0) =~= changes);
    }
}

/// The line map says of every line of the old text which line of the new one it became, and has
/// nothing only where it became none.
pub proof fn law_line_map_is_complete(changes: Seq<LineChange>, a: nat)
    ensures
        match mapped(line_map(changes), a) {
            Some(b) => became(changes, a as int, b as int) && forall|c: int|
                became(changes, a as int, c) ==> c == b,
            None => forall|c: int| !became(changes, a as int, c),
        },
{
    lemma_line_map_counts(changes);
    let map = line_map(changes);
    assert forall|c: int| became(changes, a as int, c) implies mapped(map, a) == Some(c as nat) && c
        >= 0 by {
        let k = choose|k: int|
            0 <= k < changes.len() && #[trigger] changes[k] == LineChange::Equal && a == old_passed(
                changes,
                k,
            ) + 1 && c == new_passed(changes, k) + 1;
        assert(map[old_passed(changes, k) as int] == Some((new_passed(changes, k) + 1) as nat));
    }
    if let Some(b) = mapped(map, a) {
        assert(map[a - 1] is Some);
    }
}

// ---------------------------------------------------------------------------------------------
// Edits

proof fn lemma_anchor_became(changes: Seq<LineChange>, anchor: Anchor)
    requires
        new_lines(changes) <= usize::MAX,
    ensures
        match anchor_mapped(anchor, line_map(changes)) {
            Some(to) => became(changes, anchor.line as int, to.line as int),
            None => forall|b: int| !became(changes, anchor.line as int, b),
        },
        start_became(
            changes,
            Some(anchor.line),
            start_mapped(Some(anchor.line), line_map(changes)),
        ),
{
    law_line_map_is_complete(changes, anchor.line as nat);
    lemma_map_bounded(changes, anchor.line as nat);
}

proof fn lemma_map_bounded(changes: Seq<LineChange>, a: nat)
    ensures
        mapped(line_map(changes), a) matches Some(b) ==> 1 <= b <= new_lines(changes),
    decreases changes.len(),
{
    if changes.len() > 0 {
        lemma_map_bounded(changes.drop_last(), a);
        lemma_map_len(changes.drop_last());
    }
}

proof fn lemma_map_len(changes: Seq<LineChange>)
    ensures
        line_map(changes).len() <= changes.len(),
    decreases changes.len(),
{
    if changes.len() > 0 {
        lemma_map_len(changes.drop_last());
    }
}

proof fn lemma_cursor_became(changes: Seq<LineChange>, cursor: Cursor)
    requires
        new_lines(changes) <= usize::MAX,
    ensures
        cursor_mapped(cursor, line_map(changes)) matches Some(to) ==> cursor_became(
            changes,
            cursor,
            to,
        ),
{
    match cursor {
        Cursor::BeforeAnchor { anchor } => lemma_anchor_became(changes, anchor),
        Cursor::AfterAnchor { anchor } => lemma_anchor_became(changes, anchor),
        _ => {},
    }
}

proof fn lemma_range_became(changes: Seq<LineChange>, range: ParsedRange)
    requires
        new_lines(changes) <= usize::MAX,
    ensures
        range_mapped(range, line_map(changes)) matches Some(to) ==> range_became(
            changes,
            range,
            to,
        ),
{
    lemma_anchor_became(changes, range.start);
    lemma_anchor_became(changes, range.end);
}

proof fn lemma_start_became(changes: Seq<LineChange>, start: Option<usize>)
    requires
        new_lines(changes) <= usize::MAX,
    ensures
        start_became(changes, start, start_mapped(start, line_map(changes))),
{
    if let Some(line) = start {
        lemma_anchor_became(changes, Anchor { line });
    }
}

proof fn lemma_edit_became(changes: Seq<LineChange>, edit: EditView)
    requires
        new_lines(changes) <= usize::MAX,
    ensures
        edit_mapped(edit, line_map(changes)) matches Some(to) ==> edit_became(changes, edit, to),
        !(edit is Block) && (forall|k: int|
            0 <= k < edit.anchors().len() ==> mapped(
                line_map(changes),
                (#[trigger] edit.anchors()[k]).line as nat,
            ) is Some) ==> edit_mapped(edit, line_map(changes)) is Some,
{
    let map = line_map(changes);
    match edit {
        EditView::Insert { cursor, block_start, .. } => {
            lemma_cursor_became(changes, cursor);
            lemma_start_became(changes, block_start);
            if edit.anchors().len() > 0 {
                assert(edit.anchors()[0].line == edit.anchors()[0].line);
            }
        },
        EditView::Delete { anchor, .. } => {
            lemma_anchor_became(changes, anchor);
            assert(edit.anchors()[0] == anchor);
        },
        EditView::Cut { range, .. } => {
            lemma_range_became(changes, range);
            assert(edit.anchors()[0] == range.start);
            assert(edit.anchors()[1] == range.end);
        },
        EditView::Paste { at, block_start, .. } => {
            lemma_start_became(changes, block_start);
            match at {
                PasteTarget::Gap { cursor } => {
                    lemma_cursor_became(changes, cursor);
                    if edit.anchors().len() > 0 {
                        assert(edit.anchors()[0].line == edit.anchors()[0].line);
                    }
                },
                PasteTarget::Span { range } => {
                    lemma_range_became(changes, range);
                    assert(edit.anchors()[0] == range.start);
                    assert(edit.anchors()[1] == range.end);
                },
            }
        },
        EditView::Block { .. } => {},
    }
}

pub proof fn lemma_named(edits: Seq<EditView>, line: nat)
    ensures
        is_anchor_line(anchors_of(edits), line) <==> names_line(edits, line as int),
    decreases edits.len(),
{
    if edits.len() > 0 {
        let front = edits.drop_last();
        let last = edits.last();
        let a = anchors_of(front);
        let all = anchors_of(edits);
        lemma_named(front, line);
        if is_anchor_line(all, line) {
            let n = choose|n: int| 0 <= n < all.len() && (#[trigger] all[n]).line == line;
            if n < a.len() {
                assert(a[n] == all[n]);
                assert(is_anchor_line(a, line));
                let (i, k) = choose|i: int, k: int|
                    0 <= i < front.len() && 0 <= k < (#[trigger] front[i].anchors()).len()
                        && #[trigger] front[i].anchors()[k].line == line;
                assert(edits[i].anchors()[k].line == line);
            } else {
                assert(all[n] == last.anchors()[n - a.len()]);
                assert(edits[edits.len() - 1].anchors()[n - a.len()].line == line);
            }
        }
        if names_line(edits, line as int) {
            let (i, k) = choose|i: int, k: int|
                0 <= i < edits.len() && 0 <= k < (#[trigger] edits[i].anchors()).len()
                    && #[trigger] edits[i].anchors()[k].line == line;
            if i < front.len() {
                assert(front[i].anchors()[k].line == line);
                assert(is_anchor_line(a, line));
                let n = choose|n: int| 0 <= n < a.len() && (#[trigger] a[n]).line == line;
                assert(all[n].line == line);
            } else {
                assert(all[a.len() + k] == last.anchors()[k]);
            }
        }
    } else if is_anchor_line(anchors_of(edits), line) {
        let all = anchors_of(edits);
        let n = choose|n: int| 0 <= n < all.len() && (#[trigger] all[n]).line == line;
        assert(false);
    }
}

proof fn lemma_free_above(anchors: Seq<Anchor>, line: nat)
    ensures
        ({
            let m = free_above(anchors, line);
            &&& m <= line
            &&& m >= 1 ==> !is_anchor_line(anchors, m)
            &&& forall|b: nat| m < b <= line ==> #[trigger] is_anchor_line(anchors, b)
        }),
    decreases line,
{
    if line >= 1 && is_anchor_line(anchors, line) {
        lemma_free_above(anchors, (line - 1) as nat);
    }
}

proof fn lemma_free_below(anchors: Seq<Anchor>, line: nat, count: nat)
    ensures
        ({
            let m = free_below(anchors, line, count);
            &&& line <= m
            &&& m <= count ==> !is_anchor_line(anchors, m)
            &&& forall|b: nat| line <= b < m ==> #[trigger] is_anchor_line(anchors, b)
        }),
    decreases count + 1 - line,
{
    if line <= count && is_anchor_line(anchors, line) {
        lemma_free_below(anchors, line + 1, count);
    }
}

/// With all anchors moved by one distance, the neighbours of an anchored line agree if none that
/// holds the same moved by another.
proof fn lemma_neighbours(
    old: Seq<Seq<char>>,
    changes: Seq<LineChange>,
    edits: Seq<EditView>,
    n: nat,
    distance: int,
)
    requires
        line_map(changes).len() == old.len(),
        names_line(edits, n as int),
        became(changes, n as int, n + distance),
    ensures
        neighbours_agree(old, line_map(changes), anchors_of(edits), n) <==> forall|m: int, b: int|
            #![trigger became(changes, m, b)]
            {
                &&& 1 <= m <= old.len()
                &&& !names_line(edits, m)
                &&& forall|between: int|
                    n < between < m || m < between < n ==> names_line(edits, between)
                &&& old[m - 1] == old[n - 1]
                &&& became(changes, m, b)
            } ==> b == m + distance,
{
    let map = line_map(changes);
    let anchors = anchors_of(edits);
    law_line_map_is_complete(changes, n);
    assert(mapped(map, n) is Some);
    let above = free_above(anchors, (n - 1) as nat);
    let below = free_below(anchors, n + 1, old.len());
    lemma_free_above(anchors, (n - 1) as nat);
    lemma_free_below(anchors, n + 1, old.len());
    law_line_map_is_complete(changes, above);
    law_line_map_is_complete(changes, below);
    lemma_named(edits, above);
    lemma_named(edits, below);
    if neighbours_agree(old, map, anchors, n) {
        assert forall|m: int, b: int| #![trigger became(changes, m, b)]
            {
                &&& 1 <= m <= old.len()
                &&& !names_line(edits, m)
                &&& forall|between: int|
                    n < between < m || m < between < n ==> names_line(edits, between)
                &&& old[m - 1] == old[n - 1]
                &&& became(changes, m, b)
            } implies b == m + distance by {
            law_line_map_is_complete(changes, m as nat);
            lemma_named(edits, m as nat);
            assert(m != n);
            if m < n {
                if above < m {
                    assert(is_anchor_line(anchors, m as nat));
                }
                if m < above {
                    assert(names_line(edits, above as int));
                }
                assert(m == above);
            } else {
                if m < below {
                    assert(is_anchor_line(anchors, m as nat));
                }
                if below < m {
                    assert(names_line(edits, below as int));
                }
                assert(m == below);
            }
        }
    }
    if forall|m: int, b: int|
        #![trigger became(changes, m, b)]
        {
            &&& 1 <= m <= old.len()
            &&& !names_line(edits, m)
            &&& forall|between: int|
                n < between < m || m < between < n ==> names_line(edits, between)
            &&& old[m - 1] == old[n - 1]
            &&& became(changes, m, b)
        } ==> b == m + distance {
        if above >= 1 {
            assert forall|between: int| n < between < above || above < between < n implies
                names_line(edits, between) by {
                lemma_named(edits, between as nat);
                assert(is_anchor_line(anchors, between as nat));
            }
            if let Some(b) = mapped(map, above) {
                assert(became(changes, above as int, b as int));
            }
            assert(kept_distance(old, map, n, above));
        }
        if below <= old.len() {
            assert forall|between: int| n < between < below || below < between < n implies
                names_line(edits, between) by {
                lemma_named(edits, between as nat);
                assert(is_anchor_line(anchors, between as nat));
            }
            if let Some(b) = mapped(map, below) {
                assert(became(changes, below as int, b as int));
            }
            assert(kept_distance(old, map, n, below));
        }
    }
}

proof fn lemma_all_mapped(edits: Seq<EditView>, map: Seq<Option<nat>>)
    requires
        forall|i: int| 0 <= i < edits.len() ==> edit_mapped(#[trigger] edits[i], map) is Some,
    ensures
        edits_mapped(edits, map) is Some,
    decreases edits.len(),
{
    if edits.len() > 0 {
        let front = edits.drop_last();
        assert forall|i: int| 0 <= i < front.len() implies edit_mapped(
            #[trigger] front[i],
            map,
        ) is Some by {
            assert(front[i] == edits[i]);
        }
        lemma_all_mapped(front, map);
        assert(edits.last() == edits[edits.len() - 1]);
    }
}

proof fn lemma_carried(
    old: Seq<Seq<char>>,
    new: Seq<Seq<char>>,
    changes: Seq<LineChange>,
    edits: Seq<EditView>,
) -> (distance: int)
    requires
        is_edit_script(old, new, changes),
        new.len() <= usize::MAX,
        carried_over(old, changes, edits) is Some,
    ensures
        moves_by(old, changes, edits, distance),
{
    let map = line_map(changes);
    let anchors = anchors_of(edits);
    law_line_map_joins_equal_lines(old, new, changes);
    lemma_edits_mapped(edits, map);
    let moved = carried_over(old, changes, edits)->0;
    let d = if anchors.len() > 0 {
        mapped(map, anchors[0].line as nat)->0 - anchors[0].line
    } else {
        0
    };
    assert forall|i: int| 0 <= i < edits.len() implies !((#[trigger] edits[i]) is Block) by {
        assert(edit_mapped(edits[i], map) == Some(moved[i]));
    }
    assert forall|n: int| #[trigger] names_line(edits, n) implies became(changes, n, n + d) by {
        lemma_named(edits, n as nat);
        let i = choose|i: int| 0 <= i < anchors.len() && (#[trigger] anchors[i]).line == n;
        assert(anchors[0].line == anchors[0].line);
        law_line_map_is_complete(changes, n as nat);
    }
    assert forall|n: int, m: int, b: int|
        #![trigger names_line(edits, n), became(changes, m, b)]
        {
            &&& names_line(edits, n)
            &&& 1 <= m <= old.len()
            &&& !names_line(edits, m)
            &&& forall|between: int|
                n < between < m || m < between < n ==> names_line(edits, between)
            &&& old[m - 1] == old[n - 1]
            &&& became(changes, m, b)
        } implies b == m + d by {
        lemma_named(edits, n as nat);
        let i = choose|i: int| 0 <= i < anchors.len() && (#[trigger] anchors[i]).line == n;
        assert(neighbours_agree(old, map, anchors, anchors[i].line as nat));
        assert(became(changes, n, n + d));
        lemma_neighbours(old, changes, edits, n as nat, d);
    }
    d
}

proof fn lemma_carries(
    old: Seq<Seq<char>>,
    new: Seq<Seq<char>>,
    changes: Seq<LineChange>,
    edits: Seq<EditView>,
    distance: int,
)
    requires
        is_edit_script(old, new, changes),
        new.len() <= usize::MAX,
        moves_by(old, changes, edits, distance),
    ensures
        carried_over(old, changes, edits) is Some,
{
    let map = line_map(changes);
    let anchors = anchors_of(edits);
    law_line_map_joins_equal_lines(old, new, changes);
    assert forall|i: int| 0 <= i < anchors.len() implies mapped(
        map,
        (#[trigger] anchors[i]).line as nat,
    ) == Some((anchors[i].line + distance) as nat) && anchors[i].line + distance >= 0
        && neighbours_agree(old, map, anchors, anchors[i].line as nat) by {
        let n = anchors[i].line as nat;
        assert(is_anchor_line(anchors, n));
        lemma_named(edits, n);
        assert(names_line(edits, n as int));
        law_line_map_is_complete(changes, n);
        lemma_neighbours(old, changes, edits, n, distance);
    }
    assert(is_uniform(anchors, map));
    assert(all_neighbours_agree(old, map, anchors));
    assert forall|i: int| 0 <= i < edits.len() implies edit_mapped(
        #[trigger] edits[i],
        map,
    ) is Some by {
        assert forall|k: int| 0 <= k < edits[i].anchors().len() implies mapped(
            map,
            (#[trigger] edits[i].anchors()[k]).line as nat,
        ) is Some by {
            let n = edits[i].anchors()[k].line;
            assert(names_line(edits, n as int));
            law_line_map_is_complete(changes, n as nat);
        }
        lemma_edit_became(changes, edits[i]);
    }
    lemma_all_mapped(edits, map);
}

/// All of the edits became those others.
pub open spec fn edits_became(
    changes: Seq<LineChange>,
    from: Seq<EditView>,
    to: Seq<EditView>,
) -> bool {
    from.len() == to.len() && forall|i: int|
        0 <= i < from.len() ==> edit_became(changes, from[i], #[trigger] to[i])
}

/// Edits are carried over if and only if all lines that they name moved by one distance and none
/// can have been taken for another. Each then keeps its kind and its side of the lines that it
/// names, and names the lines that those became.
pub proof fn law_edits_are_carried_over(
    old: Seq<Seq<char>>,
    new: Seq<Seq<char>>,
    changes: Seq<LineChange>,
    edits: Seq<EditView>,
)
    requires
        is_edit_script(old, new, changes),
        new.len() <= usize::MAX,
    ensures
        match carried_over(old, changes, edits) {
            Some(moved) => edits_became(changes, edits, moved) && exists|distance: int|
                moves_by(old, changes, edits, distance),
            None => forall|distance: int| !moves_by(old, changes, edits, distance),
        },
{
    match carried_over(old, changes, edits) {
        Some(moved) => {
            let d = lemma_carried(old, new, changes, edits);
            lemma_edits_mapped(edits, line_map(changes));
            law_line_map_joins_equal_lines(old, new, changes);
            assert forall|i: int| 0 <= i < edits.len() implies edit_became(
                changes,
                edits[i],
                #[trigger] moved[i],
            ) by {
                lemma_edit_became(changes, edits[i]);
            }
        },
        None => {
            assert forall|distance: int| !moves_by(old, changes, edits, distance) by {
                if moves_by(old, changes, edits, distance) {
                    lemma_carries(old, new, changes, edits, distance);
                }
            }
        },
    }
}

/// A recovery makes of the live text what the edits make of it on the lines that theirs became.
/// There is none only where the edits cannot be carried over, cannot be applied, or change nothing.
/// The warning tells whether the snapshot is the latest of the file.
pub proof fn law_recovery_applies_carried_edits(
    changes: Seq<LineChange>,
    store: StoreView,
    path: Seq<char>,
    current: Seq<char>,
    hash: Seq<char>,
    edits: Seq<EditView>,
    clip: ClipboardView,
)
    requires
        found(store, path, Sought::Hash(hash)) is Some,
        is_edit_script(
            lines_of(found(store, path, Sought::Hash(hash))->0.text),
            lines_of(current),
            changes,
        ),
        lines_of(current).len() <= usize::MAX,
    ensures
        ({
            let snapshot = found(store, path, Sought::Hash(hash))->0;
            match recovered_by(changes, store, path, current, hash, edits, clip).0 {
                Some((view, warning)) => {
                    &&& view.text != current
                    &&& exists|moved: Seq<EditView>| #[trigger]
                        edits_became(changes, edits, moved) && applied(current, moved, clip).0 == Ok::<
                            ApplyView,
                            Seq<char>,
                        >(view)
                    &&& warning == "stale tag "@ + hash + (if head_of(store, path) matches Some(head)
                        && head.text == snapshot.text {
                        ": file drifted outside this session; remapped anchors"@
                    } else {
                        ": remapped anchors from a prior in-session edit"@
                    })
                },
                None => {
                    ||| forall|distance: int|
                        !moves_by(lines_of(snapshot.text), changes, edits, distance)
                    ||| exists|moved: Seq<EditView>| #[trigger]
                        edits_became(changes, edits, moved) && match applied(
                            current,
                            moved,
                            clip,
                        ).0 {
                            Ok(view) => view.text == current,
                            Err(_) => true,
                        }
                },
            }
        }),
{
    let old = lines_of(found(store, path, Sought::Hash(hash))->0.text);
    law_edits_are_carried_over(old, lines_of(current), changes, edits);
    if let Some(moved) = carried_over(old, changes, edits) {
        assert(edits_became(changes, edits, moved));
    }
}

// ---------------------------------------------------------------------------------------------
// Texts

proof fn lemma_became_once(changes: Seq<LineChange>, a: usize, b: int, c: int)
    requires
        became(changes, a as int, b),
        became(changes, a as int, c),
    ensures
        b == c,
{
    law_line_map_is_complete(changes, a as nat);
}

/// Rows that were to go into a gap at a line of the snapshot go into the gap on the same side of
/// what that line became in the live text.
pub proof fn law_recovered_rows_go_into_same_gap(
    changes: Seq<LineChange>,
    store: StoreView,
    path: Seq<char>,
    current: Seq<char>,
    hash: Seq<char>,
    after: bool,
    n: usize,
    m: usize,
    rows: Seq<Seq<char>>,
    line_num: nat,
    index: nat,
    clip: ClipboardView,
)
    requires
        found(store, path, Sought::Hash(hash)) is Some,
        is_edit_script(
            lines_of(found(store, path, Sought::Hash(hash))->0.text),
            lines_of(current),
            changes,
        ),
        lines_of(current).len() <= usize::MAX,
        rows.len() > 0,
        became(changes, n as int, m as int),
    ensures
        ({
            let anchor = Anchor { line: n };
            let cursor = if after {
                Cursor::AfterAnchor { anchor }
            } else {
                Cursor::BeforeAnchor { anchor }
            };
            let edits = inserts(rows, cursor, line_num, index, false, None);
            let live = lines_of(current);
            let gap = if after {
                m as int
            } else {
                m - 1
            };
            recovered_by(changes, store, path, current, hash, edits, clip).0 matches Some((view, _))
                ==> view.text == join_lines(live.take(gap) + rows + live.skip(gap))
        }),
{
    let old = lines_of(found(store, path, Sought::Hash(hash))->0.text);
    let live = lines_of(current);
    let anchor = Anchor { line: n };
    let cursor = if after {
        Cursor::AfterAnchor { anchor }
    } else {
        Cursor::BeforeAnchor { anchor }
    };
    let to = Anchor { line: m };
    let moved_cursor = if after {
        Cursor::AfterAnchor { anchor: to }
    } else {
        Cursor::BeforeAnchor { anchor: to }
    };
    let edits = inserts(rows, cursor, line_num, index, false, None);
    law_edits_are_carried_over(old, live, changes, edits);
    law_line_map_joins_equal_lines(old, live, changes);
    law_line_map_is_complete(changes, n as nat);
    if let Some(moved) = carried_over(old, changes, edits) {
        assert forall|i: int| 0 <= i < moved.len() implies #[trigger] moved[i] == inserts(
            rows,
            moved_cursor,
            line_num,
            index,
            false,
            None,
        )[i] by {
            assert(edit_became(changes, edits[i], moved[i]));
        }
        assert(moved =~= inserts(rows, moved_cursor, line_num, index, false, None));
        law_rows_go_into_gap(current, moved_cursor, rows, line_num, index, None, clip);
    }
}

/// Rows that were to replace lines of the snapshot replace the lines that those became in the live
/// text, all of which moved by one distance.
pub proof fn law_recovered_rows_replace_same_lines(
    changes: Seq<LineChange>,
    store: StoreView,
    path: Seq<char>,
    current: Seq<char>,
    hash: Seq<char>,
    a: usize,
    b: usize,
    to: usize,
    rows: Seq<Seq<char>>,
    line_num: nat,
    index: nat,
    clip: ClipboardView,
)
    requires
        found(store, path, Sought::Hash(hash)) is Some,
        is_edit_script(
            lines_of(found(store, path, Sought::Hash(hash))->0.text),
            lines_of(current),
            changes,
        ),
        lines_of(current).len() <= usize::MAX,
        1 <= a <= b,
        became(changes, a as int, to as int),
        !(to + b - a == lines_of(current).len() && lines_of(current).len() > 1 && lines_of(
            current,
        ).last().len() == 0),
    ensures
        recovered_by(
            changes,
            store,
            path,
            current,
            hash,
            replacing(a, b, rows, line_num, index),
            clip,
        ).0 matches Some((view, _)) ==> view.text == join_lines(
            lines_of(current).take(to - 1) + rows + lines_of(current).skip(to + b - a),
        ),
{
    let old = lines_of(found(store, path, Sought::Hash(hash))->0.text);
    let live = lines_of(current);
    let edits = replacing(a, b, rows, line_num, index);
    if let Some(moved) = carried_over(old, changes, edits) {
        lemma_replacing_became(old, live, changes, a, b, to, rows, line_num, index);
        law_rows_replace_lines(
            current,
            to,
            (to + b - a) as usize,
            rows,
            line_num,
            index,
            clip,
        );
    }
}

/// Edits that replace lines became edits that replace the lines that those became.
proof fn lemma_replacing_became(
    old: Seq<Seq<char>>,
    live: Seq<Seq<char>>,
    changes: Seq<LineChange>,
    a: usize,
    b: usize,
    to: usize,
    rows: Seq<Seq<char>>,
    line_num: nat,
    index: nat,
)
    requires
        is_edit_script(old, live, changes),
        live.len() <= usize::MAX,
        1 <= a <= b,
        became(changes, a as int, to as int),
        carried_over(old, changes, replacing(a, b, rows, line_num, index)) is Some,
    ensures
        1 <= to,
        to + b - a <= live.len(),
        carried_over(old, changes, replacing(a, b, rows, line_num, index)) == Some(
            replacing(to, (to + b - a) as usize, rows, line_num, index),
        ),
{
    let edits = replacing(a, b, rows, line_num, index);
    let moved = carried_over(old, changes, edits)->0;
    law_edits_are_carried_over(old, live, changes, edits);
    let d = lemma_carried(old, live, changes, edits);
    lemma_line_became(changes, old, a, b, rows, line_num, index, d, a as int);
    lemma_line_became(changes, old, a, b, rows, line_num, index, d, b as int);
    lemma_became_once(changes, a, to as int, a + d);
    law_line_map_joins_equal_lines(old, live, changes);
    law_line_map_is_complete(changes, b as nat);
    lemma_map_bounded(changes, b as nat);
    law_line_map_is_complete(changes, a as nat);
    lemma_map_bounded(changes, a as nat);
    let target = replacing(to, (to + b - a) as usize, rows, line_num, index);
    assert forall|i: int| 0 <= i < moved.len() implies #[trigger] moved[i] == target[i] by {
        assert(edit_became(changes, edits[i], moved[i]));
        if i < rows.len() {
            let at = moved[i]->Insert_cursor->BeforeAnchor_anchor.line;
            lemma_became_once(changes, a, to as int, at as int);
        } else {
            let k = i - rows.len();
            lemma_line_became(changes, old, a, b, rows, line_num, index, d, a + k);
            lemma_became_once(
                changes,
                (a + k) as usize,
                a + k + d,
                moved[i]->Delete_anchor.line as int,
            );
        }
    }
    assert(moved =~= target);
}

proof fn lemma_line_became(
    changes: Seq<LineChange>,
    old: Seq<Seq<char>>,
    a: usize,
    b: usize,
    rows: Seq<Seq<char>>,
    line_num: nat,
    index: nat,
    d: int,
    n: int,
)
    requires
        a <= n <= b,
        moves_by(old, changes, replacing(a, b, rows, line_num, index), d),
    ensures
        became(changes, n, n + d),
{
    let edits = replacing(a, b, rows, line_num, index);
    let i = rows.len() + (n - a);
    assert(edits[i] == (EditView::Delete {
        anchor: Anchor { line: n as usize },
        line_num,
        index: (index + i) as nat,
    }));
    assert(edits[i].anchors()[0].line == n);
    assert(names_line(edits, n));
}

/// A recovery is tried where there is a snapshot with the tag, of another text than the live one,
/// and their lines can be compared; then it goes by the line diff between the two.
pub proof fn law_when_recovery_is_tried(
    store: StoreView,
    path: Seq<char>,
    current: Seq<char>,
    hash: Seq<char>,
    edits: Seq<EditView>,
    clip: ClipboardView,
)
    ensures
        match found(store, path, Sought::Hash(hash)) {
            None => recovered(store, path, current, hash, edits, clip) == (
                None::<(ApplyView, Seq<char>)>,
                clip,
            ),
            Some(snapshot) => {
                let old = lines_of(snapshot.text);
                let new = lines_of(current);
                let changes = line_changes(old, new);
                &&& snapshot.text == current ==> recovered(
                    store,
                    path,
                    current,
                    hash,
                    edits,
                    clip,
                ) == (None::<(ApplyView, Seq<char>)>, clip)
                &&& snapshot.text != current && (old + new).to_set().len() <= u32::MAX
                    && is_edit_script(old, new, changes) ==> recovered(
                    store,
                    path,
                    current,
                    hash,
                    edits,
                    clip,
                ) == recovered_by(changes, store, path, current, hash, edits, clip)
            },
        },
{
}

/// The lines that an edit names: the line of its gap, the line it deletes, the ends of its range,
/// or the line on which its block begins. A gap at the head or the tail names none.
pub proof fn law_lines_that_an_edit_names(edit: EditView)
    ensures
        match edit {
            EditView::Insert { cursor: Cursor::BeforeAnchor { anchor }, .. } => edit.anchors()
                == seq![anchor],
            EditView::Insert { cursor: Cursor::AfterAnchor { anchor }, .. } => edit.anchors()
                == seq![anchor],
            EditView::Insert { .. } => edit.anchors().len() == 0,
            EditView::Delete { anchor, .. } => edit.anchors() == seq![anchor],
            EditView::Cut { range, .. } => edit.anchors() == seq![range.start, range.end],
            EditView::Paste { at: PasteTarget::Span { range }, .. } => edit.anchors() == seq![
                range.start,
                range.end,
            ],
            EditView::Paste {
                at: PasteTarget::Gap { cursor: Cursor::BeforeAnchor { anchor } },
                ..
            } => edit.anchors() == seq![anchor],
            EditView::Paste {
                at: PasteTarget::Gap { cursor: Cursor::AfterAnchor { anchor } },
                ..
            } => edit.anchors() == seq![anchor],
            EditView::Paste { .. } => edit.anchors().len() == 0,
            EditView::Block { anchor, .. } => edit.anchors() == seq![anchor],
        },
{
}

} // verus!
