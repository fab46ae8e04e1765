//! Where each line of an edited text comes from, and in which order the lines stand.

use crate::apply::{
    anchors_of, applied, deletes_line, edited_lines, first_changed, first_stray, first_touched,
    law_insert_lines, law_lines_before_first_change_are_kept, law_replace_lines,
    lemma_anchors_split, line_edits, phantom_line, place_of, replacing, rewritten, texts_at,
    without_deletes, Place,
};
use crate::clipboard::{is_clip_edit, law_run_without_clipboard_edits};
use crate::text::{decimal, join_lines, law_join_of_lines, lines_of};
use crate::types::{inserts, Anchor, ApplyView, ClipboardView, Cursor, EditView};
use vstd::prelude::*;

verus! {

/// What a line of an edited text comes from: a line of the original text, or an insertion.
pub enum Origin {
    Line(int),
    Edit(int),
}

/// Where a line stands in the result: by the line of the original text that it belongs to, then by
/// its side of that line, then in the order of the edits. What goes to the head belongs to line
/// zero, and what goes to the tail to the line after the last.
pub open spec fn rank(edits: Seq<EditView>, count: nat, origin: Origin) -> (int, int, int) {
    match origin {
        Origin::Line(n) => (n, 2, 0),
        Origin::Edit(i) => match edits[i] {
            EditView::Insert { cursor, replacement, .. } => match cursor {
                Cursor::Bof => (0, 0, i),
                Cursor::Eof => (count as int + 1, 0, i),
                Cursor::BeforeAnchor { anchor } => (
                    anchor.line as int,
                    if replacement {
                        1
                    } else {
                        0
                    },
                    i,
                ),
                Cursor::AfterAnchor { anchor } => (
                    anchor.line as int,
                    if replacement {
                        1
                    } else {
                        3
                    },
                    i,
                ),
            },
            _ => (0, 0, 0),
        },
    }
}

pub open spec fn ranks_before(a: (int, int, int), b: (int, int, int)) -> bool {
    a.0 < b.0 || (a.0 == b.0 && (a.1 < b.1 || (a.1 == b.1 && a.2 < b.2)))
}

/// Some edit deletes the line. The empty line behind a final line feed is not deleted.
pub open spec fn is_deleted(lines: Seq<Seq<char>>, edits: Seq<EditView>, n: int) -> bool {
    &&& !(n == lines.len() && n > 1 && lines[n - 1].len() == 0)
    &&& exists|i: int|
        0 <= i < edits.len() && (#[trigger] edits[i] matches EditView::Delete { anchor, .. }
            && anchor.line == n)
}

/// Whether the result has a line of that origin: every insertion has its line, and so has every
/// line of the original that is not deleted.
pub open spec fn is_due(lines: Seq<Seq<char>>, edits: Seq<EditView>, origin: Origin) -> bool {
    match origin {
        Origin::Line(n) => 1 <= n <= lines.len() && !is_deleted(lines, edits, n),
        Origin::Edit(i) => 0 <= i < edits.len() && edits[i] is Insert,
    }
}

pub open spec fn origin_text(
    lines: Seq<Seq<char>>,
    edits: Seq<EditView>,
    origin: Origin,
) -> Seq<char> {
    match origin {
        Origin::Line(n) => lines[n - 1],
        Origin::Edit(i) => edits[i]->Insert_text,
    }
}

pub open spec fn in_rank_order(edits: Seq<EditView>, count: nat, origins: Seq<Origin>) -> bool {
    forall|j: int, k: int|
        0 <= j < k < origins.len() ==> ranks_before(
            rank(edits, count, #[trigger] origins[j]),
            rank(edits, count, #[trigger] origins[k]),
        )
}

/// The result has the lines that are due and no others, each once, in the order of their ranks.
pub open spec fn is_arranged(
    lines: Seq<Seq<char>>,
    edits: Seq<EditView>,
    origins: Seq<Origin>,
    result: Seq<Seq<char>>,
) -> bool {
    &&& in_rank_order(edits, lines.len(), origins)
    &&& forall|o: Origin| #[trigger] origins.contains(o) <==> is_due(lines, edits, o)
    &&& result.len() == origins.len()
    &&& forall|k: int|
        0 <= k < result.len() ==> #[trigger] result[k] == origin_text(lines, edits, origins[k])
}

/// Insertions and deletions at lines of a text of `count` lines.
pub open spec fn are_line_edits(edits: Seq<EditView>, count: nat) -> bool {
    forall|i: int|
        0 <= i < edits.len() ==> match #[trigger] edits[i] {
            EditView::Insert { cursor, .. } => match cursor {
                Cursor::BeforeAnchor { anchor } => 1 <= anchor.line <= count,
                Cursor::AfterAnchor { anchor } => 1 <= anchor.line <= count,
                _ => true,
            },
            EditView::Delete { anchor, .. } => 1 <= anchor.line <= count,
            _ => false,
        }
}

// ---------------------------------------------------------------------------------------------
// The arrangement

spec fn edit_origins(edits: Seq<EditView>, place: Place) -> Seq<Origin>
    decreases edits.len(),
{
    if edits.len() == 0 {
        seq![]
    } else {
        let front = edit_origins(edits.drop_last(), place);
        if place_of(edits.last()) == Some(place) {
            front.push(Origin::Edit(edits.len() - 1))
        } else {
            front
        }
    }
}

proof fn lemma_edit_origins(lines: Seq<Seq<char>>, edits: Seq<EditView>, place: Place)
    ensures
        ({
            let o = edit_origins(edits, place);
            &&& o.len() == texts_at(edits, place).len()
            &&& forall|k: int|
                0 <= k < o.len() ==> {
                    &&& (#[trigger] o[k]) is Edit
                    &&& 0 <= o[k]->Edit_0 < edits.len()
                    &&& place_of(edits[o[k]->Edit_0]) == Some(place)
                    &&& texts_at(edits, place)[k] == origin_text(lines, edits, o[k])
                }
            &&& forall|j: int, k: int|
                0 <= j < k < o.len() ==> (#[trigger] o[j])->Edit_0 < (#[trigger] o[k])->Edit_0
            &&& forall|i: int|
                0 <= i < edits.len() && place_of(#[trigger] edits[i]) == Some(place) ==> o.contains(
                    Origin::Edit(i),
                )
        }),
    decreases edits.len(),
{
    if edits.len() > 0 {
        let front = edits.drop_last();
        lemma_edit_origins(lines, front, place);
        let f = edit_origins(front, place);
        let o = edit_origins(edits, place);
        assert forall|k: int| 0 <= k < o.len() implies {
            &&& (#[trigger] o[k]) is Edit
            &&& 0 <= o[k]->Edit_0 < edits.len()
            &&& place_of(edits[o[k]->Edit_0]) == Some(place)
            &&& texts_at(edits, place)[k] == origin_text(lines, edits, o[k])
        } by {
            if k < f.len() {
                assert(o[k] == f[k]);
                assert(front[f[k]->Edit_0] == edits[f[k]->Edit_0]);
            }
        }
        assert forall|i: int|
            0 <= i < edits.len() && place_of(#[trigger] edits[i]) == Some(
                place,
            ) implies o.contains(Origin::Edit(i)) by {
            if i < front.len() {
                assert(front[i] == edits[i]);
                let k = choose|k: int| 0 <= k < f.len() && f[k] == Origin::Edit(i);
                assert(o[k] == Origin::Edit(i));
            } else {
                assert(o[o.len() - 1] == Origin::Edit(i));
            }
        }
    }
}

proof fn lemma_order_of_concat(edits: Seq<EditView>, count: nat, a: Seq<Origin>, b: Seq<Origin>)
    requires
        in_rank_order(edits, count, a),
        in_rank_order(edits, count, b),
        forall|j: int, k: int|
            0 <= j < a.len() && 0 <= k < b.len() ==> ranks_before(
                rank(edits, count, #[trigger] a[j]),
                rank(edits, count, #[trigger] b[k]),
            ),
    ensures
        in_rank_order(edits, count, a + b),
{
    let s = a + b;
    assert forall|j: int, k: int| 0 <= j < k < s.len() implies ranks_before(
        rank(edits, count, #[trigger] s[j]),
        rank(edits, count, #[trigger] s[k]),
    ) by {
        if j < a.len() {
            assert(s[j] == a[j]);
        } else {
            assert(s[j] == b[j - a.len()]);
        }
        if k < a.len() {
            assert(s[k] == a[k]);
        } else {
            assert(s[k] == b[k - a.len()]);
        }
    }
}

/// The lines that belong to line `n`: what goes before it, what replaces it, the line itself where
/// it is kept, and what goes after it.
spec fn origins_at(edits: Seq<EditView>, n: nat, kept: bool) -> Seq<Origin> {
    edit_origins(edits, Place::Before(n)) + edit_origins(edits, Place::Instead(n)) + (if kept {
        seq![Origin::Line(n as int)]
    } else {
        seq![]
    }) + edit_origins(edits, Place::After(n))
}

proof fn lemma_edit_ranks(lines: Seq<Seq<char>>, edits: Seq<EditView>, place: Place, count: nat)
    ensures
        in_rank_order(edits, count, edit_origins(edits, place)),
        forall|k: int|
            0 <= k < edit_origins(edits, place).len() ==> {
                let r = rank(edits, count, #[trigger] edit_origins(edits, place)[k]);
                match place {
                    Place::Head => r.0 == 0,
                    Place::Before(n) => r.0 == n && r.1 == 0,
                    Place::Instead(n) => r.0 == n && r.1 == 1,
                    Place::After(n) => r.0 == n && r.1 == 3,
                    Place::Tail => r.0 == count + 1,
                }
            },
{
    lemma_edit_origins(lines, edits, place);
}

proof fn lemma_origins_at(lines: Seq<Seq<char>>, edits: Seq<EditView>, n: nat, kept: bool)
    requires
        1 <= n <= lines.len(),
    ensures
        ({
            let o = origins_at(edits, n, kept);
            &&& in_rank_order(edits, lines.len(), o)
            &&& forall|k: int|
                0 <= k < o.len() ==> rank(edits, lines.len(), #[trigger] o[k]).0 == n
            &&& forall|k: int|
                0 <= k < o.len() ==> match #[trigger] o[k] {
                    Origin::Line(m) => m == n && kept,
                    Origin::Edit(i) => 0 <= i < edits.len() && edits[i] is Insert,
                }
            &&& kept ==> o.contains(Origin::Line(n as int))
            &&& forall|i: int|
                0 <= i < edits.len() && (place_of(#[trigger] edits[i]) == Some(Place::Before(n))
                    || place_of(edits[i]) == Some(Place::Instead(n)) || place_of(edits[i]) == Some(
                    Place::After(n),
                )) ==> o.contains(Origin::Edit(i))
        }),
{
    let count = lines.len();
    let a = edit_origins(edits, Place::Before(n));
    let b = edit_origins(edits, Place::Instead(n));
    let c: Seq<Origin> = if kept {
        seq![Origin::Line(n as int)]
    } else {
        seq![]
    };
    let d = edit_origins(edits, Place::After(n));
    lemma_edit_origins(lines, edits, Place::Before(n));
    lemma_edit_origins(lines, edits, Place::Instead(n));
    lemma_edit_origins(lines, edits, Place::After(n));
    lemma_edit_ranks(lines, edits, Place::Before(n), count);
    lemma_edit_ranks(lines, edits, Place::Instead(n), count);
    lemma_edit_ranks(lines, edits, Place::After(n), count);
    lemma_order_of_concat(edits, count, a, b);
    let ab = a + b;
    assert forall|k: int| 0 <= k < ab.len() implies {
        let r = rank(edits, count, #[trigger] ab[k]);
        r.0 == n && r.1 < 2
    } by {
        if k < a.len() {
            assert(ab[k] == a[k]);
        } else {
            assert(ab[k] == b[k - a.len()]);
        }
    }
    lemma_order_of_concat(edits, count, ab, c);
    let abc = ab + c;
    assert forall|k: int| 0 <= k < abc.len() implies {
        let r = rank(edits, count, #[trigger] abc[k]);
        r.0 == n && r.1 < 3
    } by {
        if k < ab.len() {
            assert(abc[k] == ab[k]);
        } else {
            assert(abc[k] == c[k - ab.len()]);
        }
    }
    lemma_order_of_concat(edits, count, abc, d);
    let o = origins_at(edits, n, kept);
    assert(o == abc + d);
    assert forall|k: int| 0 <= k < o.len() implies rank(edits, count, #[trigger] o[k]).0 == n
        && match o[k] {
        Origin::Line(m) => m == n && kept,
        Origin::Edit(i) => 0 <= i < edits.len() && edits[i] is Insert,
    } by {
        if k < a.len() {
            assert(o[k] == a[k]);
        } else if k < ab.len() {
            assert(o[k] == b[k - a.len()]);
        } else if k < abc.len() {
            assert(o[k] == c[k - ab.len()]);
        } else {
            assert(o[k] == d[k - abc.len()]);
        }
    }
    if kept {
        assert(o[ab.len() as int] == Origin::Line(n as int));
    }
    assert forall|i: int|
        0 <= i < edits.len() && (place_of(#[trigger] edits[i]) == Some(Place::Before(n))
            || place_of(edits[i]) == Some(Place::Instead(n)) || place_of(edits[i]) == Some(
            Place::After(n),
        )) implies o.contains(Origin::Edit(i)) by {
        if place_of(edits[i]) == Some(Place::Before(n)) {
            let k = choose|k: int| 0 <= k < a.len() && a[k] == Origin::Edit(i);
            assert(o[k] == a[k]);
        } else if place_of(edits[i]) == Some(Place::Instead(n)) {
            let k = choose|k: int| 0 <= k < b.len() && b[k] == Origin::Edit(i);
            assert(o[a.len() + k] == b[k]);
        } else {
            let k = choose|k: int| 0 <= k < d.len() && d[k] == Origin::Edit(i);
            assert(o[abc.len() + k] == d[k]);
        }
    }
}

spec fn origins_to(lines: Seq<Seq<char>>, edits: Seq<EditView>, m: nat) -> Seq<Origin>
    decreases m,
{
    if m == 0 {
        seq![]
    } else {
        origins_to(lines, edits, (m - 1) as nat) + origins_at(
            edits,
            m,
            !is_deleted(lines, edits, m as int),
        )
    }
}

proof fn lemma_origins_to(lines: Seq<Seq<char>>, edits: Seq<EditView>, m: nat)
    requires
        m <= lines.len(),
    ensures
        ({
            let o = origins_to(lines, edits, m);
            &&& in_rank_order(edits, lines.len(), o)
            &&& forall|k: int|
                0 <= k < o.len() ==> 1 <= rank(edits, lines.len(), #[trigger] o[k]).0 <= m
            &&& forall|k: int| 0 <= k < o.len() ==> is_due(lines, edits, #[trigger] o[k])
        }),
    decreases m,
{
    if m > 0 {
        let kept = !is_deleted(lines, edits, m as int);
        let a = origins_to(lines, edits, (m - 1) as nat);
        let b = origins_at(edits, m, kept);
        lemma_origins_to(lines, edits, (m - 1) as nat);
        lemma_origins_at(lines, edits, m, kept);
        lemma_order_of_concat(edits, lines.len(), a, b);
        let o = origins_to(lines, edits, m);
        assert forall|k: int| 0 <= k < o.len() implies 1 <= rank(
            edits,
            lines.len(),
            #[trigger] o[k],
        ).0 <= m && is_due(lines, edits, o[k]) by {
            if k < a.len() {
                assert(o[k] == a[k]);
            } else {
                assert(o[k] == b[k - a.len()]);
            }
        }
    }
}

proof fn lemma_origins_to_are_all(lines: Seq<Seq<char>>, edits: Seq<EditView>, m: nat, n: nat)
    requires
        1 <= n <= m <= lines.len(),
    ensures
        ({
            let o = origins_to(lines, edits, m);
            &&& !is_deleted(lines, edits, n as int) ==> o.contains(Origin::Line(n as int))
            &&& forall|i: int|
                0 <= i < edits.len() && (place_of(#[trigger] edits[i]) == Some(Place::Before(n))
                    || place_of(edits[i]) == Some(Place::Instead(n)) || place_of(edits[i]) == Some(
                    Place::After(n),
                )) ==> o.contains(Origin::Edit(i))
        }),
    decreases m,
{
    let kept = !is_deleted(lines, edits, m as int);
    let a = origins_to(lines, edits, (m - 1) as nat);
    let b = origins_at(edits, m, kept);
    let o = origins_to(lines, edits, m);
    assert(o == a + b);
    assert forall|x: Origin| a.contains(x) || b.contains(x) implies #[trigger] o.contains(x) by {
        if a.contains(x) {
            let k = choose|k: int| 0 <= k < a.len() && a[k] == x;
            assert(o[k] == x);
        } else {
            let k = choose|k: int| 0 <= k < b.len() && b[k] == x;
            assert(o[a.len() + k] == x);
        }
    }
    if n < m {
        lemma_origins_to_are_all(lines, edits, (m - 1) as nat, n);
    } else {
        lemma_origins_at(lines, edits, m, kept);
    }
}

/// `few` does what `edits` do to a text of these lines.
spec fn does_same(lines: Seq<Seq<char>>, edits: Seq<EditView>, few: Seq<EditView>) -> bool {
    &&& forall|place: Place| #[trigger] texts_at(few, place) == texts_at(edits, place)
    &&& forall|n: nat|
        1 <= n <= lines.len() ==> (#[trigger] line_edits(few, n)).deleted == is_deleted(
            lines,
            edits,
            n as int,
        )
}

spec fn are_texts(
    lines: Seq<Seq<char>>,
    edits: Seq<EditView>,
    origins: Seq<Origin>,
    texts: Seq<Seq<char>>,
) -> bool {
    &&& texts.len() == origins.len()
    &&& forall|k: int|
        0 <= k < texts.len() ==> #[trigger] texts[k] == origin_text(lines, edits, origins[k])
}

proof fn lemma_texts_of_concat(
    lines: Seq<Seq<char>>,
    edits: Seq<EditView>,
    a: Seq<Origin>,
    s: Seq<Seq<char>>,
    b: Seq<Origin>,
    t: Seq<Seq<char>>,
)
    requires
        are_texts(lines, edits, a, s),
        are_texts(lines, edits, b, t),
    ensures
        are_texts(lines, edits, a + b, s + t),
{
}

proof fn lemma_texts_to(
    lines: Seq<Seq<char>>,
    edits: Seq<EditView>,
    few: Seq<EditView>,
    m: nat,
)
    requires
        m <= lines.len(),
        does_same(lines, edits, few),
    ensures
        are_texts(lines, edits, origins_to(lines, edits, m), rewritten(lines, few, m)),
    decreases m,
{
    if m > 0 {
        let now = line_edits(few, m);
        let kept = !is_deleted(lines, edits, m as int);
        let a = edit_origins(edits, Place::Before(m));
        let b = edit_origins(edits, Place::Instead(m));
        let c: Seq<Origin> = if kept {
            seq![Origin::Line(m as int)]
        } else {
            seq![]
        };
        let line: Seq<Seq<char>> = if now.deleted {
            seq![]
        } else {
            seq![lines[m - 1]]
        };
        let d = edit_origins(edits, Place::After(m));
        lemma_edit_origins(lines, edits, Place::Before(m));
        lemma_edit_origins(lines, edits, Place::Instead(m));
        lemma_edit_origins(lines, edits, Place::After(m));
        lemma_texts_of_concat(lines, edits, a, now.before, b, now.instead);
        lemma_texts_of_concat(lines, edits, a + b, now.before + now.instead, c, line);
        lemma_texts_of_concat(
            lines,
            edits,
            a + b + c,
            now.before + now.instead + line,
            d,
            now.after,
        );
        lemma_texts_to(lines, edits, few, (m - 1) as nat);
        lemma_texts_of_concat(
            lines,
            edits,
            origins_to(lines, edits, (m - 1) as nat),
            rewritten(lines, few, (m - 1) as nat),
            origins_at(edits, m, kept),
            now.rewrite(lines[m - 1]),
        );
    }
}

spec fn all_origins(lines: Seq<Seq<char>>, edits: Seq<EditView>) -> Seq<Origin> {
    edit_origins(edits, Place::Head) + origins_to(lines, edits, lines.len()) + edit_origins(
        edits,
        Place::Tail,
    )
}

proof fn lemma_arranged(lines: Seq<Seq<char>>, edits: Seq<EditView>, few: Seq<EditView>)
    requires
        are_line_edits(edits, lines.len()),
        does_same(lines, edits, few),
    ensures
        is_arranged(lines, edits, all_origins(lines, edits), edited_lines(lines, few)),
{
    let count = lines.len();
    let a = edit_origins(edits, Place::Head);
    let b = origins_to(lines, edits, count);
    let c = edit_origins(edits, Place::Tail);
    lemma_edit_origins(lines, edits, Place::Head);
    lemma_edit_origins(lines, edits, Place::Tail);
    lemma_edit_ranks(lines, edits, Place::Head, count);
    lemma_edit_ranks(lines, edits, Place::Tail, count);
    lemma_origins_to(lines, edits, count);
    lemma_order_of_concat(edits, count, a, b);
    let ab = a + b;
    assert forall|k: int| 0 <= k < ab.len() implies rank(edits, count, #[trigger] ab[k]).0
        <= count by {
        if k < a.len() {
            assert(ab[k] == a[k]);
        } else {
            assert(ab[k] == b[k - a.len()]);
        }
    }
    lemma_order_of_concat(edits, count, ab, c);
    lemma_texts_to(lines, edits, few, count);
    lemma_texts_of_concat(
        lines,
        edits,
        a,
        texts_at(few, Place::Head),
        b,
        rewritten(lines, few, count),
    );
    lemma_texts_of_concat(
        lines,
        edits,
        ab,
        texts_at(few, Place::Head) + rewritten(lines, few, count),
        c,
        texts_at(few, Place::Tail),
    );
    let o = all_origins(lines, edits);
    assert(o == ab + c);
    assert forall|x: Origin| #[trigger] o.contains(x) <==> is_due(lines, edits, x) by {
        if o.contains(x) {
            let k = choose|k: int| 0 <= k < o.len() && o[k] == x;
            if k < a.len() {
                assert(o[k] == a[k]);
            } else if k < ab.len() {
                assert(o[k] == b[k - a.len()]);
            } else {
                assert(o[k] == c[k - ab.len()]);
            }
        }
        if is_due(lines, edits, x) {
            match x {
                Origin::Line(n) => {
                    lemma_origins_to_are_all(lines, edits, count, n as nat);
                    let k = choose|k: int| 0 <= k < b.len() && b[k] == x;
                    assert(o[a.len() + k] == x);
                },
                Origin::Edit(i) => match edits[i]->Insert_cursor {
                    Cursor::Bof => {
                        assert(place_of(edits[i]) == Some(Place::Head));
                        let k = choose|k: int| 0 <= k < a.len() && a[k] == x;
                        assert(o[k] == x);
                    },
                    Cursor::Eof => {
                        assert(place_of(edits[i]) == Some(Place::Tail));
                        let k = choose|k: int| 0 <= k < c.len() && c[k] == x;
                        assert(o[ab.len() + k] == x);
                    },
                    Cursor::BeforeAnchor { anchor } => {
                        lemma_origins_to_are_all(lines, edits, count, anchor.line as nat);
                        let k = choose|k: int| 0 <= k < b.len() && b[k] == x;
                        assert(o[a.len() + k] == x);
                    },
                    Cursor::AfterAnchor { anchor } => {
                        lemma_origins_to_are_all(lines, edits, count, anchor.line as nat);
                        let k = choose|k: int| 0 <= k < b.len() && b[k] == x;
                        assert(o[a.len() + k] == x);
                    },
                },
            }
        }
    }
}

proof fn lemma_texts_without_deletes(edits: Seq<EditView>, phantom: nat, place: Place)
    ensures
        texts_at(without_deletes(edits, phantom), place) == texts_at(edits, place),
    decreases edits.len(),
{
    if edits.len() > 0 {
        lemma_texts_without_deletes(edits.drop_last(), phantom, place);
        let front = without_deletes(edits.drop_last(), phantom);
        assert(front.push(edits.last()).drop_last() =~= front);
    }
}

proof fn lemma_without_deletes(edits: Seq<EditView>, phantom: nat)
    ensures
        forall|e: EditView| #[trigger]
            without_deletes(edits, phantom).contains(e) <==> edits.contains(e) && !(phantom != 0
                && deletes_line(e, phantom)),
    decreases edits.len(),
{
    if edits.len() > 0 {
        let rest = edits.drop_last();
        let front = without_deletes(rest, phantom);
        let out = without_deletes(edits, phantom);
        lemma_without_deletes(rest, phantom);
        assert forall|e: EditView| #[trigger] out.contains(e) <==> edits.contains(e) && !(phantom
            != 0 && deletes_line(e, phantom)) by {
            assert(edits.contains(e) <==> rest.contains(e) || e == edits.last()) by {
                if edits.contains(e) {
                    let k = choose|k: int| 0 <= k < edits.len() && edits[k] == e;
                    if k < rest.len() {
                        assert(rest[k] == e);
                    }
                }
                if rest.contains(e) {
                    let k = choose|k: int| 0 <= k < rest.len() && rest[k] == e;
                    assert(edits[k] == e);
                }
                assert(edits[edits.len() - 1] == edits.last());
            }
            assert(front.push(edits.last()).contains(e) <==> front.contains(e) || e
                == edits.last()) by {
                let p = front.push(edits.last());
                if p.contains(e) {
                    let k = choose|k: int| 0 <= k < p.len() && p[k] == e;
                    if k < front.len() {
                        assert(front[k] == e);
                    }
                }
                if front.contains(e) {
                    let k = choose|k: int| 0 <= k < front.len() && front[k] == e;
                    assert(p[k] == e);
                }
                assert(p[front.len() as int] == edits.last());
            }
            assert(front.contains(e) <==> rest.contains(e) && !(phantom != 0 && deletes_line(
                e,
                phantom,
            )));
        }
    }
}

proof fn lemma_target_does_same(lines: Seq<Seq<char>>, edits: Seq<EditView>)
    ensures
        does_same(lines, edits, without_deletes(edits, phantom_line(lines))),
{
    let phantom = phantom_line(lines);
    let few = without_deletes(edits, phantom);
    lemma_without_deletes(edits, phantom);
    assert forall|place: Place| #[trigger] texts_at(few, place) == texts_at(edits, place) by {
        lemma_texts_without_deletes(edits, phantom, place);
    }
    assert forall|n: nat| 1 <= n <= lines.len() implies (#[trigger] line_edits(few, n)).deleted
        == is_deleted(lines, edits, n as int) by {
        if line_edits(few, n).deleted {
            let i = choose|i: int| 0 <= i < few.len() && deletes_line(#[trigger] few[i], n);
            assert(few.contains(few[i]));
            let k = choose|k: int| 0 <= k < edits.len() && edits[k] == few[i];
            assert(edits[k] is Delete);
        }
        if is_deleted(lines, edits, n as int) {
            let i = choose|i: int|
                0 <= i < edits.len() && (#[trigger] edits[i] matches EditView::Delete { anchor, .. }
                    && anchor.line == n);
            assert(edits.contains(edits[i]));
            assert(few.contains(edits[i]));
            let k = choose|k: int| 0 <= k < few.len() && few[k] == edits[i];
            assert(deletes_line(few[k], n));
        }
    }
}

pub proof fn lemma_no_stray(anchors: Seq<Anchor>, count: nat)
    requires
        forall|i: int| 0 <= i < anchors.len() ==> 1 <= (#[trigger] anchors[i]).line <= count,
    ensures
        first_stray(anchors, count) is None,
    decreases anchors.len(),
{
    if anchors.len() > 0 {
        assert(anchors.last() == anchors[anchors.len() - 1]);
        lemma_no_stray(anchors.drop_last(), count);
    }
}

pub proof fn lemma_anchors_in_bounds(edits: Seq<EditView>, count: nat)
    requires
        are_line_edits(edits, count),
    ensures
        forall|i: int|
            0 <= i < anchors_of(edits).len() ==> 1 <= (#[trigger] anchors_of(edits)[i]).line
                <= count,
    decreases edits.len(),
{
    if edits.len() > 0 {
        let front = edits.drop_last();
        assert forall|i: int| 0 <= i < front.len() implies #[trigger] front[i] == edits[i] by {}
        lemma_anchors_in_bounds(front, count);
        let last = edits.last();
        assert(last == edits[edits.len() - 1]);
        let a = anchors_of(front);
        assert forall|i: int| 0 <= i < anchors_of(edits).len() implies 1 <= (#[trigger] anchors_of(
            edits,
        )[i]).line <= count by {
            if i < a.len() {
                assert(anchors_of(edits)[i] == a[i]);
            } else {
                assert(anchors_of(edits)[i] == last.anchors()[i - a.len()]);
            }
        }
    }
}

/// Edits at lines of the text do exactly what they say, whichever of them there are and in whatever
/// order. Every insertion has its line in the result, also beside or inside a deletion, and every
/// line of the text that is not deleted is kept. At each line of the text stands what is inserted
/// before it, what replaces it, the line itself, and what is inserted after it, each in the order
/// of the edits. The clipboard stays as it was.
pub proof fn law_edits_are_arranged(text: Seq<char>, edits: Seq<EditView>, clip: ClipboardView)
    requires
        are_line_edits(edits, lines_of(text).len()),
    ensures
        applied(text, edits, clip).0 is Ok,
        applied(text, edits, clip).0->Ok_0.warnings.len() == 0,
        applied(text, edits, clip).0->Ok_0.block_resolutions.len() == 0,
        applied(text, edits, clip).1 == clip,
        exists|origins: Seq<Origin>, result: Seq<Seq<char>>|
            #[trigger] is_arranged(lines_of(text), edits, origins, result) && applied(
                text,
                edits,
                clip,
            ).0->Ok_0.text == join_lines(result),
{
    let lines = lines_of(text);
    let few = without_deletes(edits, phantom_line(lines));
    lemma_target_does_same(lines, edits);
    lemma_arranged(lines, edits, few);
    assert forall|i: int| 0 <= i < edits.len() implies !is_clip_edit(
        #[trigger] edits[i],
    ) by {}
    law_run_without_clipboard_edits(edits, lines, clip, seq![], false);
    lemma_without_deletes(edits, phantom_line(lines));
    assert forall|i: int| 0 <= i < few.len() implies edits.contains(#[trigger] few[i]) by {
        assert(few.contains(few[i]));
    }
    assert(are_line_edits(few, lines.len()));
    lemma_anchors_in_bounds(few, lines.len());
    lemma_no_stray(anchors_of(few), lines.len());
    if edits.len() == 0 {
        law_join_of_lines(text);
        lemma_nothing_edited(lines, edits);
        assert(few =~= edits);
    }
}

pub proof fn lemma_nothing_edited(lines: Seq<Seq<char>>, edits: Seq<EditView>)
    requires
        edits.len() == 0,
    ensures
        edited_lines(lines, edits) == lines,
        first_changed(edits, lines.len()) is None,
{
    lemma_untouched(edits, lines.len());
    law_lines_before_first_change_are_kept(lines, edits);
}

proof fn lemma_untouched(edits: Seq<EditView>, count: nat)
    requires
        edits.len() == 0,
    ensures
        first_touched(edits, count) is None,
    decreases count,
{
    if count > 0 {
        lemma_untouched(edits, (count - 1) as nat);
    }
}

/// An edit that has an effect on a text of these lines: any but a deletion of the empty line behind
/// a final line feed.
pub open spec fn is_effective(lines: Seq<Seq<char>>, edit: EditView) -> bool {
    !(edit matches EditView::Delete { anchor, .. } && anchor.line == lines.len() && lines.len() > 1
        && lines.last().len() == 0)
}

/// Some edit that has an effect names the line.
pub open spec fn is_named(lines: Seq<Seq<char>>, edits: Seq<EditView>, n: int) -> bool {
    exists|i: int|
        0 <= i < edits.len() && is_effective(lines, #[trigger] edits[i]) && match edits[i] {
            EditView::Insert { cursor: Cursor::BeforeAnchor { anchor }, .. } => anchor.line == n,
            EditView::Insert { cursor: Cursor::AfterAnchor { anchor }, .. } => anchor.line == n,
            EditView::Delete { anchor, .. } => anchor.line == n,
            _ => false,
        }
}

pub open spec fn inserts_at(edits: Seq<EditView>, cursor: Cursor) -> bool {
    exists|i: int|
        0 <= i < edits.len() && (#[trigger] edits[i] matches EditView::Insert { cursor: c, .. } && c
            == cursor)
}

proof fn lemma_texts_there(edits: Seq<EditView>, place: Place)
    ensures
        texts_at(edits, place).len() > 0 <==> exists|i: int|
            0 <= i < edits.len() && place_of(#[trigger] edits[i]) == Some(place),
{
    let o = edit_origins(edits, place);
    lemma_edit_origins(seq![], edits, place);
    if o.len() > 0 {
        assert(o[0] is Edit);
        assert(place_of(edits[o[0]->Edit_0]) == Some(place));
    }
    if exists|i: int| 0 <= i < edits.len() && place_of(#[trigger] edits[i]) == Some(place) {
        let i = choose|i: int|
            0 <= i < edits.len() && place_of(#[trigger] edits[i]) == Some(place);
        assert(o.contains(Origin::Edit(i)));
    }
}

proof fn lemma_line_named(lines: Seq<Seq<char>>, edits: Seq<EditView>, few: Seq<EditView>, n: nat)
    requires
        1 <= n <= lines.len(),
        does_same(lines, edits, few),
    ensures
        !line_edits(few, n).is_empty() <==> is_named(lines, edits, n as int),
{
    lemma_texts_there(edits, Place::Before(n));
    lemma_texts_there(edits, Place::Instead(n));
    lemma_texts_there(edits, Place::After(n));
    let now = line_edits(few, n);
    assert(now.before == texts_at(edits, Place::Before(n)));
    assert(now.instead == texts_at(edits, Place::Instead(n)));
    assert(now.after == texts_at(edits, Place::After(n)));
    if now.deleted {
        let i = choose|i: int|
            0 <= i < edits.len() && (#[trigger] edits[i] matches EditView::Delete { anchor, .. }
                && anchor.line == n);
        assert(is_effective(lines, edits[i]));
    } else if !now.is_empty() {
        let i = choose|i: int|
            0 <= i < edits.len() && (place_of(#[trigger] edits[i]) == Some(Place::Before(n))
                || place_of(edits[i]) == Some(Place::Instead(n)) || place_of(edits[i]) == Some(
                Place::After(n),
            ));
        assert(is_effective(lines, edits[i]));
    }
    if is_named(lines, edits, n as int) {
        let i = choose|i: int|
            0 <= i < edits.len() && is_effective(lines, #[trigger] edits[i]) && match edits[i] {
                EditView::Insert { cursor: Cursor::BeforeAnchor { anchor }, .. } => anchor.line == n,
                EditView::Insert { cursor: Cursor::AfterAnchor { anchor }, .. } => anchor.line == n,
                EditView::Delete { anchor, .. } => anchor.line == n,
                _ => false,
            };
        if edits[i] is Delete {
            assert(is_deleted(lines, edits, n as int));
        } else {
            assert(place_of(edits[i]) == Some(Place::Before(n)) || place_of(edits[i]) == Some(
                Place::Instead(n),
            ) || place_of(edits[i]) == Some(Place::After(n)));
        }
    }
}

proof fn lemma_first_touched(
    lines: Seq<Seq<char>>,
    edits: Seq<EditView>,
    few: Seq<EditView>,
    count: nat,
)
    requires
        count <= lines.len(),
        does_same(lines, edits, few),
    ensures
        match first_touched(few, count) {
            Some(n) => 1 <= n <= count && is_named(lines, edits, n as int) && forall|m: int|
                1 <= m < n ==> !is_named(lines, edits, m),
            None => forall|m: int| 1 <= m <= count ==> !is_named(lines, edits, m),
        },
    decreases count,
{
    if count > 0 {
        lemma_first_touched(lines, edits, few, (count - 1) as nat);
        lemma_line_named(lines, edits, few, count);
    }
}

/// The first changed line that is reported is the first of the result that any edit can have
/// changed: line one where something goes to the head, else the first line that an edit names, else
/// the line behind the last where something goes to the tail. None is reported where no edit has an
/// effect.
pub proof fn law_first_changed_line_is_first(
    text: Seq<char>,
    edits: Seq<EditView>,
    clip: ClipboardView,
)
    requires
        are_line_edits(edits, lines_of(text).len()),
    ensures
        applied(text, edits, clip).0 is Ok,
        ({
            let lines = lines_of(text);
            match applied(text, edits, clip).0->Ok_0.first_changed_line {
                None => forall|i: int|
                    0 <= i < edits.len() ==> !is_effective(lines, #[trigger] edits[i]),
                Some(n) => if inserts_at(edits, Cursor::Bof) {
                    n == 1
                } else if n <= lines.len() {
                    is_named(lines, edits, n as int) && forall|m: int|
                        1 <= m < n ==> !is_named(lines, edits, m)
                } else {
                    n == lines.len() + 1 && inserts_at(edits, Cursor::Eof) && forall|m: int|
                        1 <= m <= lines.len() ==> !is_named(lines, edits, m)
                },
            }
        }),
{
    let lines = lines_of(text);
    let few = without_deletes(edits, phantom_line(lines));
    law_edits_are_arranged(text, edits, clip);
    lemma_target_does_same(lines, edits);
    lemma_first_touched(lines, edits, few, lines.len());
    lemma_texts_there(edits, Place::Head);
    lemma_texts_there(edits, Place::Tail);
    assert forall|i: int| 0 <= i < edits.len() implies !is_clip_edit(
        #[trigger] edits[i],
    ) by {}
    law_run_without_clipboard_edits(edits, lines, clip, seq![], false);
    assert(texts_at(few, Place::Head) == texts_at(edits, Place::Head));
    assert(texts_at(few, Place::Tail) == texts_at(edits, Place::Tail));
    if inserts_at(edits, Cursor::Bof) {
        let i = choose|i: int|
            0 <= i < edits.len() && (#[trigger] edits[i] matches EditView::Insert { cursor: c, .. }
                && c == Cursor::Bof);
        assert(place_of(edits[i]) == Some(Place::Head));
    }
    if first_changed(few, lines.len()) is None && edits.len() > 0 {
        assert forall|i: int| 0 <= i < edits.len() implies !is_effective(
            lines,
            #[trigger] edits[i],
        ) by {
            if is_effective(lines, edits[i]) {
                match edits[i] {
                    EditView::Insert { cursor, .. } => match cursor {
                        Cursor::Bof => {
                            assert(place_of(edits[i]) == Some(Place::Head));
                        },
                        Cursor::Eof => {
                            assert(place_of(edits[i]) == Some(Place::Tail));
                        },
                        Cursor::BeforeAnchor { anchor } => {
                            assert(is_named(lines, edits, anchor.line as int));
                        },
                        Cursor::AfterAnchor { anchor } => {
                            assert(is_named(lines, edits, anchor.line as int));
                        },
                    },
                    EditView::Delete { anchor, .. } => {
                        assert(is_named(lines, edits, anchor.line as int));
                    },
                    _ => {},
                }
            }
        }
    }
}

proof fn lemma_stray_there(anchors: Seq<Anchor>, count: nat, k: int)
    requires
        0 <= k < anchors.len(),
        !(1 <= anchors[k].line <= count),
        forall|i: int| 0 <= i < k ==> 1 <= (#[trigger] anchors[i]).line <= count,
    ensures
        first_stray(anchors, count) == Some(anchors[k]),
    decreases anchors.len(),
{
    let front = anchors.drop_last();
    if k < front.len() {
        lemma_stray_there(front, count, k);
    } else {
        lemma_no_stray(front, count);
    }
}

/// Insertions and deletions of which one names a line that the text does not have are refused, with
/// a message that names the line of the first such edit. Nothing is applied.
pub proof fn law_missing_line_is_refused(
    text: Seq<char>,
    edits: Seq<EditView>,
    clip: ClipboardView,
    at: int,
)
    requires
        0 <= at < edits.len(),
        forall|i: int|
            0 <= i < edits.len() ==> (#[trigger] edits[i]) is Insert || edits[i] is Delete,
        are_line_edits(edits.take(at), lines_of(text).len()),
        edits[at].anchors().len() == 1,
        !(1 <= edits[at].anchors()[0].line <= lines_of(text).len()),
    ensures
        applied(text, edits, clip) == (
            Err::<ApplyView, Seq<char>>(
                "Line "@ + decimal(edits[at].anchors()[0].line as nat)
                    + " does not exist (file has "@ + decimal(lines_of(text).len()) + " lines)"@,
            ),
            clip,
        ),
{
    let lines = lines_of(text);
    let phantom = phantom_line(lines);
    let few = without_deletes(edits, phantom);
    assert forall|i: int| 0 <= i < edits.len() implies !is_clip_edit(
        #[trigger] edits[i],
    ) by {}
    law_run_without_clipboard_edits(edits, lines, clip, seq![], false);
    lemma_without_deletes(edits, phantom);
    assert forall|i: int| 0 <= i < few.len() implies !((#[trigger] few[i]) is Block) by {
        assert(few.contains(few[i]));
    }
    lemma_without_deletes_splits(edits, at, phantom);
    lemma_without_deletes_splits(edits.skip(at), 1, phantom);
    let one = edits.skip(at).take(1);
    assert(one.drop_last() =~= seq![]);
    assert(one.last() == edits[at]);
    reveal_with_fuel(without_deletes, 2);
    assert(without_deletes(one, phantom) =~= seq![edits[at]]);
    let a = without_deletes(edits.take(at), phantom);
    let b = without_deletes(edits.skip(at).skip(1), phantom);
    lemma_without_deletes(edits.take(at), phantom);
    assert forall|i: int| 0 <= i < a.len() implies edits.take(at).contains(#[trigger] a[i]) by {
        assert(a.contains(a[i]));
    }
    lemma_anchors_in_bounds(a, lines.len());
    assert(few =~= a + seq![edits[at]] + b);
    lemma_anchors_split(few, a.len() as int);
    assert(few.take(a.len() as int) =~= a);
    let rest = few.skip(a.len() as int);
    lemma_anchors_split(rest, 1);
    assert(rest.take(1) =~= seq![edits[at]]);
    reveal_with_fuel(anchors_of, 2);
    assert(seq![edits[at]].drop_last() =~= seq![]);
    assert(anchors_of(seq![edits[at]]) =~= edits[at].anchors());
    let all = anchors_of(few);
    let k = anchors_of(a).len() as int;
    assert(all[k] == edits[at].anchors()[0]);
    assert forall|i: int| 0 <= i < k implies 1 <= (#[trigger] all[i]).line <= lines.len() by {
        assert(all[i] == anchors_of(a)[i]);
    }
    lemma_stray_there(all, lines.len(), k);
}

proof fn lemma_without_deletes_splits(edits: Seq<EditView>, i: int, phantom: nat)
    requires
        0 <= i <= edits.len(),
    ensures
        without_deletes(edits, phantom) == without_deletes(edits.take(i), phantom)
            + without_deletes(edits.skip(i), phantom),
    decreases edits.len(),
{
    if i == edits.len() {
        assert(edits.take(i) =~= edits);
        assert(edits.skip(i) =~= seq![]);
        assert(without_deletes(edits, phantom) =~= without_deletes(edits.take(i), phantom)
            + without_deletes(edits.skip(i), phantom));
    } else {
        lemma_without_deletes_splits(edits.drop_last(), i, phantom);
        assert(edits.drop_last().take(i) =~= edits.take(i));
        assert(edits.drop_last().skip(i) =~= edits.skip(i).drop_last());
        assert(edits.skip(i).last() == edits.last());
        assert(without_deletes(edits, phantom) =~= without_deletes(edits.take(i), phantom)
            + without_deletes(edits.skip(i), phantom));
    }
}

proof fn lemma_applied_lines(text: Seq<char>, edits: Seq<EditView>, clip: ClipboardView)
    requires
        edits.len() > 0,
        are_line_edits(edits, lines_of(text).len()),
    ensures
        applied(text, edits, clip).0 is Ok,
        applied(text, edits, clip).0->Ok_0.text == join_lines(
            edited_lines(lines_of(text), without_deletes(edits, phantom_line(lines_of(text)))),
        ),
{
    law_edits_are_arranged(text, edits, clip);
    assert forall|i: int| 0 <= i < edits.len() implies !is_clip_edit(
        #[trigger] edits[i],
    ) by {}
    law_run_without_clipboard_edits(edits, lines_of(text), clip, seq![], false);
}

/// Rows inserted into one gap of a text stand in that gap, and all else is kept.
pub proof fn law_rows_go_into_gap(
    text: Seq<char>,
    cursor: Cursor,
    rows: Seq<Seq<char>>,
    line_num: nat,
    index: nat,
    block_start: Option<usize>,
    clip: ClipboardView,
)
    requires
        rows.len() > 0,
        match cursor {
            Cursor::BeforeAnchor { anchor } => 1 <= anchor.line <= lines_of(text).len(),
            Cursor::AfterAnchor { anchor } => 1 <= anchor.line <= lines_of(text).len(),
            _ => true,
        },
    ensures
        ({
            let lines = lines_of(text);
            let gap = match cursor {
                Cursor::Bof => 0,
                Cursor::Eof => lines.len() as int,
                Cursor::BeforeAnchor { anchor } => anchor.line - 1,
                Cursor::AfterAnchor { anchor } => anchor.line as int,
            };
            let edits = inserts(rows, cursor, line_num, index, false, block_start);
            &&& applied(text, edits, clip).0 is Ok
            &&& applied(text, edits, clip).0->Ok_0.text == join_lines(
                lines.take(gap) + rows + lines.skip(gap),
            )
        }),
{
    let lines = lines_of(text);
    let edits = inserts(rows, cursor, line_num, index, false, block_start);
    lemma_applied_lines(text, edits, clip);
    lemma_kept_without_deletes(edits, phantom_line(lines));
    law_insert_lines(lines, cursor, rows, line_num, index, block_start);
}

/// Rows in place of the lines `a` to `b` of a text stand between the lines before and after those.
pub proof fn law_rows_replace_lines(
    text: Seq<char>,
    a: usize,
    b: usize,
    rows: Seq<Seq<char>>,
    line_num: nat,
    index: nat,
    clip: ClipboardView,
)
    requires
        1 <= a <= b <= lines_of(text).len(),
        !(b == lines_of(text).len() && b > 1 && lines_of(text).last().len() == 0),
    ensures
        ({
            let lines = lines_of(text);
            let edits = replacing(a, b, rows, line_num, index);
            &&& applied(text, edits, clip).0 is Ok
            &&& applied(text, edits, clip).0->Ok_0.text == join_lines(
                lines.take(a - 1) + rows + lines.skip(b as int),
            )
        }),
{
    let lines = lines_of(text);
    let edits = replacing(a, b, rows, line_num, index);
    assert(edits.last() is Delete);
    lemma_applied_lines(text, edits, clip);
    lemma_kept_without_deletes(edits, phantom_line(lines));
    law_replace_lines(lines, a, b, rows, line_num, index);
}

pub proof fn lemma_kept_without_deletes(edits: Seq<EditView>, phantom: nat)
    requires
        forall|i: int|
            0 <= i < edits.len() ==> ((#[trigger] edits[i]) matches EditView::Delete { anchor, .. }
                ==> anchor.line != phantom),
    ensures
        without_deletes(edits, phantom) == edits,
    decreases edits.len(),
{
    if edits.len() > 0 {
        assert forall|i: int| 0 <= i < edits.drop_last().len() implies ((
        #[trigger] edits.drop_last()[i]) matches EditView::Delete { anchor, .. } ==> anchor.line
            != phantom) by {
            assert(edits.drop_last()[i] == edits[i]);
        }
        lemma_kept_without_deletes(edits.drop_last(), phantom);
        assert(edits.last() == edits[edits.len() - 1]);
        assert(edits =~= edits.drop_last().push(edits.last()));
    } else {
        assert(edits =~= seq![]);
    }
}

} // verus!
