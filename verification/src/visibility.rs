//! Which lines edits may touch: those that were shown, and what a refusal shows of the others.

use crate::apply::anchors_of;
use crate::carry::{lemma_named, names_line};
use crate::recovery::is_anchor_line;
use crate::seen::{
    after_refusal, capped, decimals, distinct_lines, lemma_not_among, not_among, shown_line,
    shown_lines, shows_all, unseen_lines, unseen_message,
};
use crate::snapshots::{
    find_in, found, history, is_sought, lemma_find_in, seen_more, Sought, StoreView,
};
use crate::text::{byte_len, byte_prefix, decimal, join_lines, join_with, lines_of};
use crate::types::{Anchor, EditView};
use vstd::prelude::*;

verus! {

/// Line `a` is named before line `b`.
pub open spec fn named_before(anchors: Seq<Anchor>, a: usize, b: usize) -> bool {
    exists|i: int|
        0 <= i < anchors.len() && (#[trigger] anchors[i]).line == a && forall|j: int|
            0 <= j < anchors.len() && (#[trigger] anchors[j]).line == b ==> i < j
}

proof fn lemma_distinct(anchors: Seq<Anchor>)
    ensures
        ({
            let d = distinct_lines(anchors);
            &&& d.no_duplicates()
            &&& forall|line: usize| #[trigger]
                d.contains(line) <==> is_anchor_line(anchors, line as nat)
            &&& forall|a: int, b: int|
                0 <= a < b < d.len() ==> named_before(anchors, #[trigger] d[a], #[trigger] d[b])
        }),
    decreases anchors.len(),
{
    if anchors.len() > 0 {
        let front = anchors.drop_last();
        let last = anchors.last();
        lemma_distinct(front);
        let f = distinct_lines(front);
        let d = distinct_lines(anchors);
        assert forall|line: usize| is_anchor_line(anchors, line as nat) == (is_anchor_line(
            front,
            line as nat,
        ) || line == last.line) by {
            if is_anchor_line(anchors, line as nat) {
                let i = choose|i: int|
                    0 <= i < anchors.len() && (#[trigger] anchors[i]).line == line;
                if i < front.len() {
                    assert(front[i].line == line);
                }
            }
            if is_anchor_line(front, line as nat) {
                let i = choose|i: int| 0 <= i < front.len() && (#[trigger] front[i]).line == line;
                assert(anchors[i].line == line);
            }
            if line == last.line {
                assert(anchors[anchors.len() - 1].line == line);
            }
        }
        assert forall|line: usize| #[trigger] d.contains(line) <==> is_anchor_line(
            anchors,
            line as nat,
        ) by {
            assert(f.contains(line) <==> is_anchor_line(front, line as nat));
            if d.contains(line) {
                let i = choose|i: int| 0 <= i < d.len() && d[i] == line;
                if i < f.len() {
                    assert(f[i] == line);
                }
            }
            if f.contains(line) {
                let i = choose|i: int| 0 <= i < f.len() && f[i] == line;
                assert(d[i] == line);
            }
            if line == last.line && !f.contains(line) {
                assert(d[d.len() - 1] == line);
            }
        }
        assert forall|a: int, b: int| 0 <= a < b < d.len() implies named_before(
            anchors,
            #[trigger] d[a],
            #[trigger] d[b],
        ) by {
            if b < f.len() {
                assert(d[a] == f[a] && d[b] == f[b]);
                assert(named_before(front, f[a], f[b]));
                let i = choose|i: int|
                    0 <= i < front.len() && (#[trigger] front[i]).line == f[a] && forall|j: int|
                        0 <= j < front.len() && (#[trigger] front[j]).line == f[b] ==> i < j;
                assert(anchors[i].line == d[a]);
                assert forall|j: int|
                    0 <= j < anchors.len() && (#[trigger] anchors[j]).line == d[b] implies i < j by {
                    if j < front.len() {
                        assert(front[j].line == f[b]);
                    }
                }
            } else {
                assert(d[a] == f[a]);
                assert(f.contains(f[a]));
                let i = choose|i: int|
                    0 <= i < front.len() && (#[trigger] front[i]).line == f[a];
                assert(anchors[i].line == d[a]);
                assert(!f.contains(last.line));
                assert forall|j: int|
                    0 <= j < anchors.len() && (#[trigger] anchors[j]).line == d[b] implies i < j by {
                    if j < front.len() {
                        assert(front[j].line == last.line);
                        assert(is_anchor_line(front, last.line as nat));
                    }
                }
            }
        }
    }
}

proof fn lemma_kept_in_order(lines: Seq<usize>, seen: Set<usize>, anchors: Seq<Anchor>)
    requires
        lines.no_duplicates(),
        forall|a: int, b: int|
            0 <= a < b < lines.len() ==> named_before(
                anchors,
                #[trigger] lines[a],
                #[trigger] lines[b],
            ),
    ensures
        not_among(lines, seen).no_duplicates(),
        forall|a: int, b: int|
            0 <= a < b < not_among(lines, seen).len() ==> named_before(
                anchors,
                #[trigger] not_among(lines, seen)[a],
                #[trigger] not_among(lines, seen)[b],
            ),
    decreases lines.len(),
{
    if lines.len() > 0 {
        let front = lines.drop_last();
        let last = lines.last();
        assert forall|a: int, b: int| 0 <= a < b < front.len() implies named_before(
            anchors,
            #[trigger] front[a],
            #[trigger] front[b],
        ) by {
            assert(front[a] == lines[a] && front[b] == lines[b]);
        }
        lemma_kept_in_order(front, seen, anchors);
        lemma_not_among(front, seen);
        let f = not_among(front, seen);
        let d = not_among(lines, seen);
        assert forall|a: int| 0 <= a < f.len() implies #[trigger] f[a] != last && named_before(
            anchors,
            f[a],
            last,
        ) by {
            assert(f.contains(f[a]));
            let i = choose|i: int| 0 <= i < front.len() && front[i] == f[a];
            assert(lines[i] == f[a]);
            assert(lines[lines.len() - 1] == last);
        }
        assert forall|a: int, b: int| 0 <= a < b < d.len() implies named_before(
            anchors,
            #[trigger] d[a],
            #[trigger] d[b],
        ) by {
            if b < f.len() {
                assert(d[a] == f[a] && d[b] == f[b]);
            } else {
                assert(d[a] == f[a]);
            }
        }
    }
}

/// The lines that stand in the way of edits are those that they name and that the reads of this
/// very text did not show: each once, in the order in which they are named first. Where it is not
/// known that anything was shown, none stands in the way.
pub proof fn law_unseen_lines_are_named_and_not_shown(
    store: StoreView,
    key: Seq<char>,
    text: Seq<char>,
    edits: Seq<EditView>,
)
    ensures
        ({
            let unseen = unseen_lines(store, key, text, edits);
            match found(store, key, Sought::Text(text)) {
                Some(snapshot) => match snapshot.seen_lines {
                    Some(seen) => if forall|line: usize| !(#[trigger] seen.contains(line)) {
                        unseen.len() == 0
                    } else {
                        &&& unseen.no_duplicates()
                        &&& forall|line: usize| #[trigger]
                            unseen.contains(line) <==> names_line(edits, line as int)
                                && !seen.contains(line)
                        &&& forall|a: int, b: int|
                            0 <= a < b < unseen.len() ==> named_before(
                                anchors_of(edits),
                                #[trigger] unseen[a],
                                #[trigger] unseen[b],
                            )
                    },
                    None => unseen.len() == 0,
                },
                None => unseen.len() == 0,
            }
        }),
{
    if let Some(snapshot) = found(store, key, Sought::Text(text)) {
        if let Some(seen) = snapshot.seen_lines {
            let anchors = anchors_of(edits);
            lemma_distinct(anchors);
            lemma_not_among(distinct_lines(anchors), seen);
            lemma_kept_in_order(distinct_lines(anchors), seen, anchors);
            assert forall|line: usize| is_anchor_line(anchors, line as nat) == names_line(
                edits,
                line as int,
            ) by {
                lemma_named(edits, line as nat);
            }
            assert(seen.is_empty() == (forall|line: usize| !(#[trigger] seen.contains(line)))) by {
                if forall|line: usize| !(#[trigger] seen.contains(line)) {
                    assert(seen =~= Set::<usize>::empty());
                }
            }
        }
    }
}

/// A refusal names all lines that stand in the way, and shows the first of them that the text has,
/// as many as a refusal shows, with their numbers; of long ones as much as fits.
pub proof fn law_refusal_in_full(
    path: Seq<char>,
    tag: Seq<char>,
    unseen: Seq<usize>,
    source: Seq<Seq<char>>,
)
    requires
        unseen.len() > 0,
        forall|i: int| 0 <= i < unseen.len() ==> 1 <= #[trigger] unseen[i] <= source.len(),
    ensures
        decimals(unseen).len() == unseen.len(),
        forall|i: int|
            0 <= i < unseen.len() ==> #[trigger] decimals(unseen)[i] == decimal(unseen[i] as nat),
        ({
            let count = if unseen.len() > 40 {
                40
            } else {
                unseen.len() as int
            };
            exists|rows: Seq<Seq<char>>|
                {
                    &&& rows.len() == count
                    &&& forall|i: int|
                        0 <= i < count ==> {
                            let line = source[unseen[i] - 1];
                            #[trigger] rows[i] == decimal(unseen[i] as nat) + seq![':']
                                + if byte_len(line) <= 512 {
                                line
                            } else {
                                byte_prefix(line, 512).push('\u{2026}')
                            }
                        }
                    &&& unseen_message(path, tag, unseen, source) == "edit on "@ + path
                        + " touches lines not shown in the tagged read ("@ + tag + "): "@
                        + join_with(decimals(unseen), ", "@) + "\nRe-read those lines, then retry."@ + seq![
                        '\n',
                    ] + #[trigger] join_lines(rows)
                }
        }),
{
    let some = capped(unseen);
    let rows = shown_lines(some, source);
    lemma_shown(some, source);
    assert(unseen_message(path, tag, unseen, source) == "edit on "@ + path
        + " touches lines not shown in the tagged read ("@ + tag + "): "@ + join_with(
        decimals(unseen),
        ", "@,
    ) + "\nRe-read those lines, then retry."@ + seq!['\n'] + join_lines(rows));
}

proof fn lemma_shown(lines: Seq<usize>, source: Seq<Seq<char>>)
    requires
        forall|i: int| 0 <= i < lines.len() ==> 1 <= #[trigger] lines[i] <= source.len(),
    ensures
        shown_lines(lines, source).len() == lines.len(),
        forall|i: int|
            0 <= i < lines.len() ==> #[trigger] shown_lines(lines, source)[i] == shown_line(
                lines[i],
                source[lines[i] - 1],
            ),
    decreases lines.len(),
{
    if lines.len() > 0 {
        let front = lines.drop_last();
        assert forall|i: int| 0 <= i < front.len() implies 1 <= #[trigger] front[i]
            <= source.len() by {
            assert(front[i] == lines[i]);
        }
        lemma_shown(front, source);
        assert(lines[lines.len() - 1] == lines.last());
        assert forall|i: int| 0 <= i < lines.len() implies #[trigger] shown_lines(
            lines,
            source,
        )[i] == shown_line(lines[i], source[lines[i] - 1]) by {
            if i < front.len() {
                assert(shown_lines(lines, source)[i] == shown_lines(front, source)[i]);
            }
        }
    }
}

/// Only lines that a refusal showed whole, all of them, count as shown afterwards. Where there were
/// more than a refusal shows, or one was too long or is not there, everything stays as it was.
/// Nothing else changes either way.
pub proof fn law_only_shown_lines_count(
    store: StoreView,
    key: Seq<char>,
    text: Seq<char>,
    unseen: Seq<usize>,
)
    requires
        found(store, key, Sought::Text(text)) is Some,
    ensures
        ({
            let after = after_refusal(store, key, text, unseen);
            let source = lines_of(text);
            let shown = unseen.len() <= 40 && forall|i: int|
                0 <= i < unseen.len() ==> 1 <= #[trigger] unseen[i] <= source.len() && byte_len(
                    source[unseen[i] - 1],
                ) <= 512;
            let before = found(store, key, Sought::Text(text))->0;
            &&& !shown ==> after == store
            &&& after.order == store.order
            &&& forall|k: Seq<char>|
                k != key ==> #[trigger] history(after, k) == history(store, k)
            &&& history(after, key).len() == history(store, key).len()
            &&& shown ==> (found(after, key, Sought::Text(text)) matches Some(v) && v.text
                == before.text && v.hash == before.hash && v.path == before.path && v.seen_lines
                == Some(
                match before.seen_lines {
                    Some(seen) => seen.union(unseen.to_set()),
                    None => unseen.to_set(),
                },
            ))
        }),
{
    let after = after_refusal(store, key, text, unseen);
    let h = history(store, key);
    let sought = Sought::Text(text);
    let at = find_in(h, sought);
    lemma_find_in(h, sought);
    if shows_all(unseen, lines_of(text)) {
        let now = history(after, key);
        assert(now == h.update(at, seen_more(h[at], Some(unseen))));
        lemma_find_in(now, sought);
        let again = find_in(now, sought);
        if again < at {
            assert(now[again] == h[again]);
            assert(!is_sought(h[again], sought));
        } else if at < again {
            assert(now[at].text == text);
            assert(!is_sought(now[at], sought));
        }
    }
}

} // verus!
