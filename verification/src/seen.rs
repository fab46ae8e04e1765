//! Refuse edits on lines that were never shown.

use crate::apply::anchors_of;
use crate::format::{format_numbered_line, numbered};
use crate::recovery::collect_anchors;
use crate::snapshots::{
    find_in, found, history, lemma_find_in, merge_seen_lines, seen_more, with_history,
    SnapshotStore, Sought, StoreView,
};
use crate::text::{
    byte_len, byte_prefix, chars_of, decimal, join_lines, join_strings, join_text, join_with,
    lines_of, newline, push_decimal, split_lines, string_of, strs, take_bytes,
};
use crate::types::{
    edit_views, Anchor, Edit, EditView, SEEN_LINE_REVEAL_CAP, SEEN_LINE_REVEAL_MAX_COLUMNS,
};
use std::collections::BTreeSet;
use vstd::prelude::*;

verus! {

// ---------------------------------------------------------------------------------------------
// Model

/// The lines of the anchors, each once, in the order in which they are named first.
pub open spec fn distinct_lines(anchors: Seq<Anchor>) -> Seq<usize>
    decreases anchors.len(),
{
    if anchors.len() == 0 {
        seq![]
    } else {
        let front = distinct_lines(anchors.drop_last());
        if front.contains(anchors.last().line) {
            front
        } else {
            front.push(anchors.last().line)
        }
    }
}

/// The lines that are not among those seen.
pub open spec fn not_among(lines: Seq<usize>, seen: Set<usize>) -> Seq<usize>
    decreases lines.len(),
{
    if lines.len() == 0 {
        seq![]
    } else {
        let front = not_among(lines.drop_last(), seen);
        if seen.contains(lines.last()) {
            front
        } else {
            front.push(lines.last())
        }
    }
}

/// The lines that edits name although the reads of a text did not show them. Where it is not known
/// what was shown, everything counts as shown.
pub open spec fn unseen_lines(
    store: StoreView,
    key: Seq<char>,
    text: Seq<char>,
    edits: Seq<EditView>,
) -> Seq<usize> {
    match found(store, key, Sought::Text(text)) {
        None => seq![],
        Some(snapshot) => match snapshot.seen_lines {
            None => seq![],
            Some(seen) => if seen.is_empty() {
                seq![]
            } else {
                not_among(distinct_lines(anchors_of(edits)), seen)
            },
        },
    }
}

pub open spec fn in_text(line: usize, source: Seq<Seq<char>>) -> bool {
    1 <= line <= source.len()
}

/// Whether a line is short enough to be shown whole.
pub open spec fn is_short(text: Seq<char>) -> bool {
    byte_len(text) <= SEEN_LINE_REVEAL_MAX_COLUMNS
}

/// A line with its number; of a long one only as much as fits, which never ends inside a character.
pub open spec fn shown_line(line: usize, text: Seq<char>) -> Seq<char> {
    if is_short(text) {
        numbered(line as nat, text)
    } else {
        numbered(
            line as nat,
            byte_prefix(text, SEEN_LINE_REVEAL_MAX_COLUMNS as nat).push('\u{2026}'),
        )
    }
}

/// Those of the lines that exist, as they are shown.
pub open spec fn shown_lines(lines: Seq<usize>, source: Seq<Seq<char>>) -> Seq<Seq<char>>
    decreases lines.len(),
{
    if lines.len() == 0 {
        seq![]
    } else {
        let front = shown_lines(lines.drop_last(), source);
        let line = lines.last();
        if in_text(line, source) {
            front.push(shown_line(line, source[line - 1]))
        } else {
            front
        }
    }
}

pub open spec fn capped(lines: Seq<usize>) -> Seq<usize> {
    if lines.len() <= SEEN_LINE_REVEAL_CAP {
        lines
    } else {
        lines.take(SEEN_LINE_REVEAL_CAP as int)
    }
}

/// Whether a refusal shows every one of the lines whole.
pub open spec fn shows_all(lines: Seq<usize>, source: Seq<Seq<char>>) -> bool {
    &&& lines.len() <= SEEN_LINE_REVEAL_CAP
    &&& forall|i: int|
        0 <= i < lines.len() ==> in_text(#[trigger] lines[i], source) && is_short(
            source[lines[i] - 1],
        )
}

pub open spec fn decimals(lines: Seq<usize>) -> Seq<Seq<char>> {
    Seq::new(lines.len(), |i: int| decimal(lines[i] as nat))
}

/// What a refusal says.
pub open spec fn unseen_message(
    path: Seq<char>,
    tag: Seq<char>,
    unseen: Seq<usize>,
    source: Seq<Seq<char>>,
) -> Seq<char> {
    let shown = shown_lines(capped(unseen), source);
    let message = "edit on "@ + path + " touches lines not shown in the tagged read ("@ + tag
        + "): "@ + join_with(decimals(unseen), ", "@) + "\nRe-read those lines, then retry."@;
    if shown.len() == 0 {
        message
    } else {
        message + newline() + join_lines(shown)
    }
}

/// The store after a refusal: lines that the refusal showed whole count as seen.
pub open spec fn after_refusal(
    store: StoreView,
    key: Seq<char>,
    text: Seq<char>,
    unseen: Seq<usize>,
) -> StoreView {
    if shows_all(unseen, lines_of(text)) {
        let h = history(store, key);
        let at = find_in(h, Sought::Text(text));
        with_history(store, key, h.update(at, seen_more(h[at], Some(unseen))))
    } else {
        store
    }
}

// ---------------------------------------------------------------------------------------------
// Laws

pub proof fn lemma_not_among(lines: Seq<usize>, seen: Set<usize>)
    ensures
        forall|line: usize| #[trigger]
            not_among(lines, seen).contains(line) <==> lines.contains(line) && !seen.contains(line),
    decreases lines.len(),
{
    if lines.len() > 0 {
        let less = lines.drop_last();
        lemma_not_among(less, seen);
        let front = not_among(less, seen);
        let done = not_among(lines, seen);
        assert forall|line: usize| #[trigger] done.contains(line) <==> lines.contains(line)
            && !seen.contains(line) by {
            assert(lines =~= less.push(lines.last()));
            if lines.contains(line) {
                let i = choose|i: int| 0 <= i < lines.len() && lines[i] == line;
                if i < less.len() {
                    assert(less[i] == line);
                    assert(less.contains(line));
                }
            }
            if less.contains(line) {
                let i = choose|i: int| 0 <= i < less.len() && less[i] == line;
                assert(lines[i] == line);
            }
            assert(lines[lines.len() - 1] == lines.last());
            if done.contains(line) {
                let i = choose|i: int| 0 <= i < done.len() && done[i] == line;
                if i < front.len() {
                    assert(front[i] == line);
                    assert(front.contains(line));
                }
            }
            if front.contains(line) {
                let i = choose|i: int| 0 <= i < front.len() && front[i] == line;
                assert(done[i] == line);
            }
            if line == lines.last() && !seen.contains(line) {
                assert(done[done.len() - 1] == line);
            }
        }
    }
}

proof fn lemma_none_among(lines: Seq<usize>, seen: Set<usize>)
    requires
        forall|line: usize| lines.contains(line) ==> #[trigger] seen.contains(line),
    ensures
        not_among(lines, seen).len() == 0,
{
    lemma_not_among(lines, seen);
    if not_among(lines, seen).len() > 0 {
        let line = not_among(lines, seen)[0];
        assert(not_among(lines, seen).contains(line));
    }
}

/// Lines that a refusal showed whole are no obstacle to a retry: the same edits on the same text
/// then name no line that was not shown.
pub proof fn law_retry_after_refusal_is_accepted(
    store: StoreView,
    key: Seq<char>,
    text: Seq<char>,
    edits: Seq<EditView>,
)
    requires
        unseen_lines(store, key, text, edits).len() > 0,
        shows_all(unseen_lines(store, key, text, edits), lines_of(text)),
    ensures
        unseen_lines(
            after_refusal(store, key, text, unseen_lines(store, key, text, edits)),
            key,
            text,
            edits,
        ).len() == 0,
{
    let unseen = unseen_lines(store, key, text, edits);
    let h = history(store, key);
    let sought = Sought::Text(text);
    let at = find_in(h, sought);
    lemma_find_in(h, sought);
    let after = after_refusal(store, key, text, unseen);
    let now = history(after, key);
    let lines = distinct_lines(anchors_of(edits));
    let seen = h[at].seen_lines->0;
    assert(now == h.update(at, seen_more(h[at], Some(unseen))));
    lemma_find_in(now, sought);
    let again = find_in(now, sought);
    assert(again == at) by {
        if again < at {
            assert(now[again] == h[again]);
        } else if at < again {
            assert(now[at].text == text);
        }
    }
    let more = now[at].seen_lines->0;
    lemma_not_among(lines, seen);
    assert forall|line: usize| lines.contains(line) implies #[trigger] more.contains(line) by {
        if !seen.contains(line) {
            assert(unseen.contains(line));
        }
    }
    lemma_none_among(lines, more);
}

// ---------------------------------------------------------------------------------------------
// Executable functions

/// The lines that the edits name, each once.
pub fn collect_anchor_lines(edits: &[Edit]) -> (out: Vec<usize>)
    ensures
        out@ == distinct_lines(anchors_of(edit_views(edits@))),
{
    broadcast use vstd::std_specs::btree::group_btree_axioms;

    let anchors = collect_anchors(edits);
    let mut out: Vec<usize> = Vec::new();
    let mut known: BTreeSet<usize> = BTreeSet::new();
    let mut i: usize = 0;
    proof {
        assert(anchors@.take(0) =~= seq![]);
    }
    while i < anchors.len()
        invariant
            i <= anchors.len(),
            out@ == distinct_lines(anchors@.take(i as int)),
            forall|line: usize| #[trigger] known@.contains(line) <==> out@.contains(line),
        decreases anchors.len() - i,
    {
        let line = anchors[i].line;
        proof {
            assert(anchors@.take(i + 1).drop_last() =~= anchors@.take(i as int));
            assert(anchors@.take(i + 1).last() == anchors@[i as int]);
        }
        if !known.contains(&line) {
            let ghost before = out@;
            known.insert(line);
            out.push(line);
            proof {
                assert forall|l: usize| #[trigger] known@.contains(l) <==> out@.contains(l) by {
                    if out@.contains(l) {
                        let k = choose|k: int| 0 <= k < out@.len() && out@[k] == l;
                        if k < before.len() {
                            assert(before[k] == l);
                            assert(before.contains(l));
                        }
                    }
                    if before.contains(l) {
                        let k = choose|k: int| 0 <= k < before.len() && before[k] == l;
                        assert(out@[k] == l);
                    }
                    if l == line {
                        assert(out@[out@.len() - 1] == l);
                    }
                }
            }
        }
        i += 1;
    }
    proof {
        assert(anchors@.take(i as int) =~= anchors@);
    }
    out
}

fn leave_out_seen(lines: &[usize], seen: &BTreeSet<usize>) -> (out: Vec<usize>)
    ensures
        out@ == not_among(lines@, seen@),
{
    broadcast use vstd::std_specs::btree::group_btree_axioms;

    let mut out: Vec<usize> = Vec::new();
    let mut i: usize = 0;
    proof {
        assert(lines@.take(0) =~= seq![]);
    }
    while i < lines.len()
        invariant
            i <= lines.len(),
            out@ == not_among(lines@.take(i as int), seen@),
        decreases lines.len() - i,
    {
        proof {
            assert(lines@.take(i + 1).drop_last() =~= lines@.take(i as int));
            assert(lines@.take(i + 1).last() == lines@[i as int]);
        }
        if !seen.contains(&lines[i]) {
            out.push(lines[i]);
        }
        i += 1;
    }
    proof {
        assert(lines@.take(i as int) =~= lines@);
    }
    out
}

/// The lines that edits name although no read of the text showed them.
pub fn find_unseen(store: &SnapshotStore, key: &str, text: &str, edits: &[Edit]) -> (out: Vec<
    usize,
>)
    ensures
        out@ == unseen_lines(store@, key@, text@, edit_views(edits@)),
{
    let snapshot = match store.by_content(key, text) {
        Some(snapshot) => snapshot,
        None => {
            return Vec::new();
        },
    };
    match &snapshot.seen_lines {
        None => Vec::new(),
        Some(seen) => {
            if seen.is_empty() {
                return Vec::new();
            }
            let lines = collect_anchor_lines(edits);
            leave_out_seen(lines.as_slice(), seen)
        },
    }
}

fn show_line(line: usize, text: &str) -> (r: (String, bool))
    ensures
        r.0@ == shown_line(line, text@),
        r.1 == is_short(text@),
{
    if text.as_bytes().len() <= SEEN_LINE_REVEAL_MAX_COLUMNS {
        (format_numbered_line(line, text), true)
    } else {
        let chars = chars_of(text);
        let mut cut = string_of(take_bytes(chars.as_slice(), SEEN_LINE_REVEAL_MAX_COLUMNS));
        cut.push('\u{2026}');
        (format_numbered_line(line, cut.as_str()), false)
    }
}

/// The lines as a refusal shows them, and whether it shows all of them whole.
fn show_lines(lines: &[usize], source: &[String]) -> (r: (Vec<String>, bool))
    ensures
        strs(r.0@) == shown_lines(capped(lines@), strs(source@)),
        r.1 == shows_all(lines@, strs(source@)),
{
    let ghost texts = strs(source@);
    let count = if lines.len() <= SEEN_LINE_REVEAL_CAP {
        lines.len()
    } else {
        SEEN_LINE_REVEAL_CAP
    };
    let mut shown: Vec<String> = Vec::new();
    let mut whole = true;
    let mut i: usize = 0;
    proof {
        assert(lines@.take(0) =~= seq![]);
        assert(strs(shown@) =~= seq![]);
    }
    while i < count
        invariant
            i <= count <= lines.len(),
            texts == strs(source@),
            strs(shown@) == shown_lines(lines@.take(i as int), texts),
            whole == forall|k: int|
                0 <= k < i ==> in_text(#[trigger] lines@[k], texts) && is_short(
                    texts[lines@[k] - 1],
                ),
        decreases count - i,
    {
        let line = lines[i];
        proof {
            assert(lines@.take(i + 1).drop_last() =~= lines@.take(i as int));
            assert(lines@.take(i + 1).last() == line);
            assert(lines@[i as int] == line);
        }
        if 1 <= line && line <= source.len() {
            proof {
                assert(texts[line - 1] == source@[line - 1]@);
            }
            let ghost had = strs(shown@);
            let (text, short) = show_line(line, source[line - 1].as_str());
            shown.push(text);
            proof {
                assert(strs(shown@) =~= had.push(text@));
            }
            if !short {
                whole = false;
            }
        } else {
            whole = false;
        }
        i += 1;
    }
    proof {
        assert(capped(lines@) =~= lines@.take(count as int));
    }
    (shown, whole && count == lines.len())
}

fn decimal_strings(lines: &[usize]) -> (out: Vec<String>)
    ensures
        strs(out@) == decimals(lines@),
{
    let mut out: Vec<String> = Vec::new();
    let mut i: usize = 0;
    while i < lines.len()
        invariant
            i <= lines.len(),
            out@.len() == i,
            forall|k: int| 0 <= k < i ==> (#[trigger] out@[k])@ == decimal(lines@[k] as nat),
        decreases lines.len() - i,
    {
        let mut text = String::new();
        push_decimal(&mut text, lines[i]);
        proof {
            assert(text@ =~= decimal(lines@[i as int] as nat));
        }
        out.push(text);
        i += 1;
    }
    proof {
        assert(strs(out@) =~= decimals(lines@));
    }
    out
}

/// Refuse edits on lines that no read of the text showed: gives the message of the refusal, which
/// shows these lines.
pub fn refuse_unseen(
    path: &str,
    store: &mut SnapshotStore,
    key: &str,
    text: &str,
    tag: &str,
    edits: &[Edit],
) -> (r: Option<String>)
    ensures
        ({
            let unseen = unseen_lines(old(store)@, key@, text@, edit_views(edits@));
            match r {
                None => unseen.len() == 0 && final(store)@ == old(store)@,
                Some(message) => unseen.len() > 0 && message@ == unseen_message(
                    path@,
                    tag@,
                    unseen,
                    lines_of(text@),
                ) && final(store)@ == after_refusal(old(store)@, key@, text@, unseen),
            }
        }),
{
    let unseen = find_unseen(store, key, text, edits);
    if unseen.len() == 0 {
        return None;
    }
    let source = split_lines(chars_of(text).as_slice());
    let (shown, whole) = show_lines(unseen.as_slice(), source.as_slice());
    if whole {
        if let Some(version) = store.by_content_mut(key, text) {
            merge_seen_lines(version, Some(unseen.as_slice()));
        }
    }
    let mut message = "edit on ".to_owned();
    message.append(path);
    message.append(" touches lines not shown in the tagged read (");
    message.append(tag);
    message.append("): ");
    message.append(join_strings(decimal_strings(unseen.as_slice()).as_slice(), ", ").as_str());
    message.append("\nRe-read those lines, then retry.");
    if shown.len() > 0 {
        let ghost said = message@;
        message.push('\n');
        message.append(join_text(shown.as_slice()).as_str());
        proof {
            assert(message@ =~= said + newline() + join_lines(strs(shown@)));
            assert(strs(shown@).len() == shown@.len());
        }
    } else {
        proof {
            assert(strs(shown@).len() == 0);
        }
    }
    Some(message)
}

} // verus!
