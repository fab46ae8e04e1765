//! Compact line diffs for display.

use crate::recovery::LineChange;
use crate::search::{split_text_lines, text_lines};
use crate::text::{
    all_of, byte_len, byte_prefix, can_number_lines, chars_of, class_has, decimal, distinct_count,
    join_lines, join_text, law_lines_of_join, lemma_byte_len_concat, lemma_lines_in_line,
    lemma_lines_len, lemma_lines_nonempty, lemma_trailing, lines_of, newline, push_chars,
    push_number, same_text, string_of, strs, take_bytes, trim, trim_end, trimmed, trimmed_end,
    CharClass,
};
use similar::{ChangeTag, TextDiff};
use vstd::prelude::*;
use vstd::slice::slice_subrange;

verus! {

pub const FILE_TOUCH_PREVIEW_MAX_LINES: usize = 6;

pub const FILE_TOUCH_PREVIEW_MAX_BYTES: usize = 240;

pub const HASHLINE_DIFF_MAX_LINES: usize = 30;

/// One line of a diff, with its line break.
#[derive(Debug)]
pub struct TextChange {
    pub kind: LineChange,
    pub value: String,
}

#[verifier::ext_equal]
pub struct TextChangeView {
    pub kind: LineChange,
    pub value: Seq<char>,
}

impl View for TextChange {
    type V = TextChangeView;

    open spec fn view(&self) -> TextChangeView {
        TextChangeView { kind: self.kind, value: self.value@ }
    }
}

pub open spec fn change_views(v: Seq<TextChange>) -> Seq<TextChangeView> {
    Seq::new(v.len(), |i: int| v[i]@)
}

/// The line changes that `similar` finds between two texts.
pub uninterp spec fn text_changes(old: Seq<char>, new: Seq<char>) -> Seq<TextChangeView>;

/// What the changes say of the old text (`new_side` false) or of the new one: the lines of both
/// texts and of that text alone, one after the other.
pub open spec fn side_of(changes: Seq<TextChangeView>, new_side: bool) -> Seq<char>
    decreases changes.len(),
{
    if changes.len() == 0 {
        seq![]
    } else {
        let last = changes.last();
        let front = side_of(changes.drop_last(), new_side);
        let other = if new_side {
            LineChange::Delete
        } else {
            LineChange::Insert
        };
        if last.kind == other {
            front
        } else {
            front + last.value
        }
    }
}

pub open spec fn all_equal(changes: Seq<TextChangeView>) -> bool {
    forall|i: int| 0 <= i < changes.len() ==> (#[trigger] changes[i]).kind == LineChange::Equal
}

/// The changes lead from one text to the other: put together, those of each side are that text.
pub open spec fn leads_between(
    changes: Seq<TextChangeView>,
    old: Seq<char>,
    new: Seq<char>,
) -> bool {
    side_of(changes, false) == old && side_of(changes, true) == new
}

/// Whether `c` begins a line behind `before`: that is so behind a line feed, and behind a carriage
/// return unless `c` is the line feed that goes with it.
pub open spec fn begins_line(before: char, c: char) -> bool {
    before == '\n' || (before == '\r' && c != '\n')
}

/// The lines of a text, each with the break that ends it.
pub open spec fn broken_lines(text: Seq<char>) -> Seq<Seq<char>>
    decreases text.len(),
{
    if text.len() == 0 {
        seq![]
    } else {
        let rest = text.drop_last();
        let front = broken_lines(rest);
        if rest.len() == 0 || begins_line(rest.last(), text.last()) {
            front.push(seq![text.last()])
        } else {
            front.drop_last().push(front.last().push(text.last()))
        }
    }
}

/// Two texts of no more different lines than `similar` can number.
pub open spec fn diffable(old: Seq<char>, new: Seq<char>) -> bool {
    distinct_count(broken_lines(old) + broken_lines(new)) <= u32::MAX
}

/// `TextDiff::from_lines` of `similar` with its default settings, and its `iter_all_changes`. The
/// changes depend on the two texts alone. Those of one side, put together, are that text, and equal
/// texts have no other changes than equal lines. Which of the possible diffs it finds is not stated.
/// It numbers the different lines of both texts by a `u32`, so texts of more of them are left out. A
/// line ends with a line feed, a carriage return, or the two in this order.
#[verifier::external_body]
pub(crate) fn diff_texts(old: &str, new: &str) -> (r: Vec<TextChange>)
    requires
        diffable(old@, new@),
    ensures
        change_views(r@) == text_changes(old@, new@),
        leads_between(change_views(r@), old@, new@),
        old@ == new@ ==> all_equal(change_views(r@)),
{
    TextDiff::from_lines(old, new)
        .iter_all_changes()
        .map(|change| TextChange {
            kind: match change.tag() {
                ChangeTag::Equal => LineChange::Equal,
                ChangeTag::Delete => LineChange::Delete,
                ChangeTag::Insert => LineChange::Insert,
            },
            value: change.value().to_string(),
        })
        .collect()
}

// ---------------------------------------------------------------------------------------------
// Model

/// How many lines of one side the changes pass over.
pub open spec fn lines_passed(changes: Seq<TextChangeView>, new_side: bool) -> nat
    decreases changes.len(),
{
    if changes.len() == 0 {
        0
    } else {
        let other = if new_side {
            LineChange::Delete
        } else {
            LineChange::Insert
        };
        lines_passed(changes.drop_last(), new_side) + if changes.last().kind == other {
            0nat
        } else {
            1
        }
    }
}

/// `N- TEXT` for a line of the old text alone and `N+ TEXT` for a line of the new text alone, a line
/// each. Blank lines are left out, but counted.
pub open spec fn change_rows(changes: Seq<TextChangeView>, start: nat) -> Seq<char>
    decreases changes.len(),
{
    if changes.len() == 0 {
        seq![]
    } else {
        let front = changes.drop_last();
        let rows = change_rows(front, start);
        let content = trimmed(changes.last().value);
        if content.len() == 0 {
            rows
        } else {
            match changes.last().kind {
                LineChange::Equal => rows,
                LineChange::Delete => rows + decimal(start + lines_passed(front, false)) + "- "@
                    + content + "\n"@,
                LineChange::Insert => rows + decimal(start + lines_passed(front, true)) + "+ "@
                    + content + "\n"@,
            }
        }
    }
}

/// A compact diff: the rows without white space at their end.
pub open spec fn diff_text(changes: Seq<TextChangeView>, start: nat) -> Seq<char> {
    trimmed_end(change_rows(changes, start), CharClass::White)
}

pub open spec fn common_prefix(a: Seq<Seq<char>>, b: Seq<Seq<char>>) -> nat
    decreases a.len(),
{
    if a.len() > 0 && b.len() > 0 && a[0] == b[0] {
        1 + common_prefix(a.skip(1), b.skip(1))
    } else {
        0
    }
}

pub open spec fn common_suffix(a: Seq<Seq<char>>, b: Seq<Seq<char>>) -> nat
    decreases a.len(),
{
    if a.len() > 0 && b.len() > 0 && a.last() == b.last() {
        1 + common_suffix(a.drop_last(), b.drop_last())
    } else {
        0
    }
}

/// The lines of two texts between their common head and their common tail, and the number of the
/// first of them.
pub open spec fn span_between(before: Seq<char>, after: Seq<char>) -> (
    Seq<char>,
    Seq<char>,
    nat,
) {
    let old = text_lines(before);
    let new = text_lines(after);
    let head = common_prefix(old, new);
    let old_rest = old.skip(head as int);
    let new_rest = new.skip(head as int);
    let tail = common_suffix(old_rest, new_rest);
    (
        join_lines(old_rest.take(old_rest.len() - tail)),
        join_lines(new_rest.take(new_rest.len() - tail)),
        head + 1,
    )
}

/// A diff of no more lines than may be shown.
pub open spec fn capped_diff(diff: Seq<char>) -> Seq<char> {
    let lines = text_lines(diff);
    if lines.len() <= HASHLINE_DIFF_MAX_LINES {
        diff
    } else {
        join_lines(lines.take(HASHLINE_DIFF_MAX_LINES as int)) + "\n..."@
    }
}

/// The diff of the lines that changed between two texts.
pub open spec fn changed_span_diff(before: Seq<char>, after: Seq<char>) -> Seq<char> {
    let (old, new, start) = span_between(before, after);
    capped_diff(diff_text(text_changes(old, new), start))
}

/// Whether the lines that changed between two texts can be compared.
pub open spec fn can_diff_span(before: Seq<char>, after: Seq<char>) -> bool {
    let (old, new, _) = span_between(before, after);
    diffable(old, new)
}

/// The changes that are shown of two texts lead between the lines of them that changed.
pub open spec fn shows_span(before: Seq<char>, after: Seq<char>) -> bool {
    let (old, new, _) = span_between(before, after);
    leads_between(text_changes(old, new), old, new)
}

/// A diff short enough for a notice: no more lines and bytes than it may have, with an ellipsis
/// where something was left out.
pub open spec fn touch_preview(diff: Seq<char>) -> Option<Seq<char>> {
    let t = trimmed(diff);
    if t.len() == 0 {
        None
    } else {
        let lines = text_lines(t);
        let many = lines.len() > FILE_TOUCH_PREVIEW_MAX_LINES;
        let head = join_lines(
            if many {
                lines.take(FILE_TOUCH_PREVIEW_MAX_LINES as int)
            } else {
                lines
            },
        );
        let long = byte_len(head) > FILE_TOUCH_PREVIEW_MAX_BYTES;
        let shown = if long {
            trimmed_end(
                byte_prefix(head, FILE_TOUCH_PREVIEW_MAX_BYTES as nat),
                CharClass::White,
            )
        } else {
            head
        };
        Some(
            if many || long {
                shown + "\n\u{2026}"@
            } else {
                shown
            },
        )
    }
}

// ---------------------------------------------------------------------------------------------
// Facts

/// A text has no more lines than characters.
proof fn lemma_line_count(text: Seq<char>)
    ensures
        text_lines(text).len() <= text.len(),
{
    lemma_lines_nonempty(text);
    lemma_lines_len(text);
}

// ---------------------------------------------------------------------------------------------
// Executable functions

/// The lines of a text, each with the break that ends it.
fn break_lines(text: &str) -> (out: Vec<String>)
    ensures
        strs(out@) == broken_lines(text@),
{
    let chars = chars_of(text);
    let mut out: Vec<String> = Vec::new();
    let mut i: usize = 0;
    proof {
        assert(strs(out@) =~= broken_lines(chars@.take(0)));
    }
    while i < chars.len()
        invariant
            i <= chars.len(),
            strs(out@) == broken_lines(chars@.take(i as int)),
            i > 0 ==> out@.len() > 0,
        decreases chars.len() - i,
    {
        let c = chars[i];
        let ghost front = strs(out@);
        proof {
            assert(chars@.take(i + 1).drop_last() =~= chars@.take(i as int));
            assert(chars@.take(i + 1).last() == c);
        }
        if i == 0 || chars[i - 1] == '\n' || (chars[i - 1] == '\r' && c != '\n') {
            let mut line = String::new();
            line.push(c);
            out.push(line);
            proof {
                assert(strs(out@) =~= front.push(seq![c]));
            }
        } else {
            let ghost last = out@.last()@;
            if let Some(mut line) = out.pop() {
                line.push(c);
                out.push(line);
            }
            proof {
                assert(front.last() == last);
                assert(strs(out@) =~= front.drop_last().push(last.push(c)));
            }
        }
        i += 1;
    }
    proof {
        assert(chars@.take(i as int) =~= chars@);
    }
    out
}

/// Whether two texts have few enough different lines to be compared.
pub fn can_diff(old: &str, new: &str) -> (yes: bool)
    ensures
        yes == diffable(old@, new@),
{
    can_number_lines(break_lines(old).as_slice(), break_lines(new).as_slice())
}

/// Render changes as "42- old" / "42+ new".
pub fn render_diff(changes: &[TextChange], start_line: usize) -> (out: String)
    ensures
        out@ == diff_text(change_views(changes@), start_line as nat),
{
    let ghost all = change_views(changes@);
    let mut rows = String::new();
    let mut old_line: u128 = start_line as u128;
    let mut new_line: u128 = start_line as u128;
    let mut i: usize = 0;
    proof {
        assert(all.take(0) =~= seq![]);
    }
    while i < changes.len()
        invariant
            i <= changes.len(),
            all == change_views(changes@),
            rows@ == change_rows(all.take(i as int), start_line as nat),
            old_line == start_line + lines_passed(all.take(i as int), false),
            new_line == start_line + lines_passed(all.take(i as int), true),
            old_line <= start_line + i,
            new_line <= start_line + i,
        decreases changes.len() - i,
    {
        let change = &changes[i];
        proof {
            assert(all.take(i + 1).drop_last() =~= all.take(i as int));
            assert(all.take(i + 1).last() == change@);
        }
        let chars = chars_of(change.value.as_str());
        let content = trim(chars.as_slice());
        match change.kind {
            LineChange::Equal => {
                old_line += 1;
                new_line += 1;
            },
            LineChange::Delete => {
                if content.len() > 0 {
                    push_number(&mut rows, old_line);
                    rows.append("- ");
                    push_chars(&mut rows, content);
                    rows.append("\n");
                }
                old_line += 1;
            },
            LineChange::Insert => {
                if content.len() > 0 {
                    push_number(&mut rows, new_line);
                    rows.append("+ ");
                    push_chars(&mut rows, content);
                    rows.append("\n");
                }
                new_line += 1;
            },
        }
        i += 1;
    }
    proof {
        assert(all.take(i as int) =~= all);
    }
    let chars = chars_of(rows.as_str());
    string_of(trim_end(chars.as_slice(), CharClass::White))
}

/// Generate a compact diff: "42- old" / "42+ new"
pub fn generate_diff(old: &str, new: &str, start_line: usize) -> (out: String)
    requires
        diffable(old@, new@),
    ensures
        out@ == diff_text(text_changes(old@, new@), start_line as nat),
        leads_between(text_changes(old@, new@), old@, new@),
        old@ == new@ ==> out@.len() == 0,
{
    let changes = diff_texts(old, new);
    proof {
        if old@ == new@ {
            law_equal_lines_give_no_diff(change_views(changes@), start_line as nat);
        }
    }
    render_diff(changes.as_slice(), start_line)
}

/// How many lines two lists begin with in common.
fn common_head(old: &[String], new: &[String]) -> (n: usize)
    ensures
        n == common_prefix(strs(old@), strs(new@)),
        n <= old@.len(),
        n <= new@.len(),
{
    let ghost a = strs(old@);
    let ghost b = strs(new@);
    let mut n: usize = 0;
    proof {
        assert(a.skip(0) =~= a);
        assert(b.skip(0) =~= b);
    }
    while n < old.len() && n < new.len() && same_text(old[n].as_str(), new[n].as_str())
        invariant
            n <= old.len(),
            n <= new.len(),
            a == strs(old@),
            b == strs(new@),
            common_prefix(a, b) == n + common_prefix(a.skip(n as int), b.skip(n as int)),
        decreases old.len() - n,
    {
        proof {
            assert(a.skip(n as int)[0] == old@[n as int]@);
            assert(b.skip(n as int)[0] == new@[n as int]@);
            assert(a.skip(n as int).skip(1) =~= a.skip(n + 1));
            assert(b.skip(n as int).skip(1) =~= b.skip(n + 1));
        }
        n += 1;
    }
    proof {
        let x = a.skip(n as int);
        let y = b.skip(n as int);
        if n < old.len() && n < new.len() {
            assert(x[0] == old@[n as int]@);
            assert(y[0] == new@[n as int]@);
        }
        assert(common_prefix(x, y) == 0);
    }
    n
}

/// How many lines two lists end with in common.
fn common_tail(old: &[String], new: &[String]) -> (n: usize)
    ensures
        n == common_suffix(strs(old@), strs(new@)),
        n <= old@.len(),
        n <= new@.len(),
{
    let ghost a = strs(old@);
    let ghost b = strs(new@);
    let mut n: usize = 0;
    proof {
        assert(a.take(a.len() as int) =~= a);
        assert(b.take(b.len() as int) =~= b);
    }
    while n < old.len() && n < new.len() && same_text(
        old[old.len() - n - 1].as_str(),
        new[new.len() - n - 1].as_str(),
    )
        invariant
            n <= old.len(),
            n <= new.len(),
            a == strs(old@),
            b == strs(new@),
            common_suffix(a, b) == n + common_suffix(a.take(a.len() - n), b.take(b.len() - n)),
        decreases old.len() - n,
    {
        proof {
            let p = a.take(a.len() - n);
            let q = b.take(b.len() - n);
            assert(p.last() == old@[old@.len() - n - 1]@);
            assert(q.last() == new@[new@.len() - n - 1]@);
            assert(p.drop_last() =~= a.take(a.len() - n - 1));
            assert(q.drop_last() =~= b.take(b.len() - n - 1));
        }
        n += 1;
    }
    proof {
        let p = a.take(a.len() - n);
        let q = b.take(b.len() - n);
        if n < old.len() && n < new.len() {
            assert(p.last() == old@[old@.len() - n - 1]@);
            assert(q.last() == new@[new@.len() - n - 1]@);
        }
        assert(common_suffix(p, q) == 0);
    }
    n
}

/// The lines that changed between two texts, and where they begin.
pub fn changed_span(before: &str, after: &str) -> (r: (String, String, usize))
    requires
        before@.len() < usize::MAX || after@.len() < usize::MAX,
    ensures
        (r.0@, r.1@, r.2 as nat) == span_between(before@, after@),
{
    let old = split_text_lines(before);
    let new = split_text_lines(after);
    let ghost a = strs(old@);
    let ghost b = strs(new@);
    let head = common_head(old.as_slice(), new.as_slice());
    let old_rest = slice_subrange(old.as_slice(), head, old.len());
    let new_rest = slice_subrange(new.as_slice(), head, new.len());
    proof {
        assert(strs(old_rest@) =~= a.skip(head as int));
        assert(strs(new_rest@) =~= b.skip(head as int));
    }
    let tail = common_tail(old_rest, new_rest);
    let old_lines = slice_subrange(old_rest, 0, old_rest.len() - tail);
    let new_lines = slice_subrange(new_rest, 0, new_rest.len() - tail);
    proof {
        let x = a.skip(head as int);
        let y = b.skip(head as int);
        assert(strs(old_lines@) =~= x.take(x.len() - tail));
        assert(strs(new_lines@) =~= y.take(y.len() - tail));
        assert(a.subrange(head as int, a.len() - tail) =~= x.take(x.len() - tail));
        assert(b.subrange(head as int, b.len() - tail) =~= y.take(y.len() - tail));
        lemma_line_count(before@);
        lemma_line_count(after@);
    }
    (join_text(old_lines), join_text(new_lines), head + 1)
}

/// Cut a diff down to the lines that may be shown.
pub fn cap_diff(diff: String) -> (out: String)
    ensures
        out@ == capped_diff(diff@),
{
    let lines = split_text_lines(diff.as_str());
    proof {
        assert(strs(lines@).len() == lines@.len());
    }
    if lines.len() <= HASHLINE_DIFF_MAX_LINES {
        return diff;
    }
    let shown = slice_subrange(lines.as_slice(), 0, HASHLINE_DIFF_MAX_LINES);
    proof {
        assert(strs(shown@) =~= strs(lines@).take(HASHLINE_DIFF_MAX_LINES as int));
    }
    let mut out = join_text(shown);
    out.append("\n...");
    out
}

/// The diff of the lines that changed between two texts.
pub fn generate_changed_span_diff(before: &str, after: &str) -> (out: String)
    requires
        before@.len() < usize::MAX || after@.len() < usize::MAX,
        can_diff_span(before@, after@),
    ensures
        out@ == changed_span_diff(before@, after@),
        shows_span(before@, after@),
{
    let (old, new, start) = changed_span(before, after);
    cap_diff(generate_diff(old.as_str(), new.as_str(), start))
}

/// Shorten a diff for a notice.
pub fn build_file_touch_preview(diff: &str) -> (r: Option<String>)
    ensures
        match r {
            Some(preview) => touch_preview(diff@) == Some(preview@),
            None => touch_preview(diff@) is None,
        },
{
    let chars = chars_of(diff);
    let t = trim(chars.as_slice());
    if t.len() == 0 {
        return None;
    }
    let lines = split_text_lines(string_of(t).as_str());
    proof {
        assert(strs(lines@).len() == lines@.len());
    }
    let many = lines.len() > FILE_TOUCH_PREVIEW_MAX_LINES;
    let mut preview = if many {
        let shown = slice_subrange(lines.as_slice(), 0, FILE_TOUCH_PREVIEW_MAX_LINES);
        proof {
            assert(strs(shown@) =~= strs(lines@).take(FILE_TOUCH_PREVIEW_MAX_LINES as int));
        }
        join_text(shown)
    } else {
        join_text(lines.as_slice())
    };
    let long = preview.as_str().as_bytes().len() > FILE_TOUCH_PREVIEW_MAX_BYTES;
    if long {
        let head = chars_of(preview.as_str());
        preview = string_of(
            trim_end(
                take_bytes(head.as_slice(), FILE_TOUCH_PREVIEW_MAX_BYTES),
                CharClass::White,
            ),
        );
    }
    if many || long {
        preview.append("\n\u{2026}");
    }
    Some(preview)
}

// ---------------------------------------------------------------------------------------------
// Laws

/// Where all lines are equal, a diff shows nothing.
pub proof fn law_equal_lines_give_no_diff(changes: Seq<TextChangeView>, start: nat)
    requires
        all_equal(changes),
    ensures
        diff_text(changes, start).len() == 0,
{
    lemma_no_rows(changes, start);
}

proof fn lemma_no_rows(changes: Seq<TextChangeView>, start: nat)
    requires
        all_equal(changes),
    ensures
        change_rows(changes, start).len() == 0,
    decreases changes.len(),
{
    if changes.len() > 0 {
        let front = changes.drop_last();
        assert forall|i: int| 0 <= i < front.len() implies (#[trigger] front[i]).kind
            == LineChange::Equal by {
            assert(front[i] == changes[i]);
        }
        lemma_no_rows(front, start);
        assert(changes.last() == changes[changes.len() - 1]);
    }
}

pub proof fn lemma_common_prefix(a: Seq<Seq<char>>, b: Seq<Seq<char>>)
    ensures
        ({
            let n = common_prefix(a, b) as int;
            &&& n <= a.len()
            &&& n <= b.len()
            &&& a.take(n) == b.take(n)
            &&& n < a.len() && n < b.len() ==> a[n] != b[n]
        }),
    decreases a.len(),
{
    let n = common_prefix(a, b) as int;
    if a.len() > 0 && b.len() > 0 && a[0] == b[0] {
        let x = a.skip(1);
        let y = b.skip(1);
        lemma_common_prefix(x, y);
        assert forall|i: int| 0 <= i < n implies a[i] == b[i] by {
            if i > 0 {
                assert(x.take(n - 1)[i - 1] == y.take(n - 1)[i - 1]);
            }
        }
        assert(a.take(n) =~= b.take(n));
        if n < a.len() && n < b.len() {
            assert(x[n - 1] == a[n] && y[n - 1] == b[n]);
        }
    } else {
        assert(a.take(0) =~= b.take(0));
    }
}

pub proof fn lemma_common_suffix(a: Seq<Seq<char>>, b: Seq<Seq<char>>)
    ensures
        ({
            let n = common_suffix(a, b) as int;
            &&& n <= a.len()
            &&& n <= b.len()
            &&& a.skip(a.len() - n) == b.skip(b.len() - n)
            &&& n < a.len() && n < b.len() ==> a[a.len() - n - 1] != b[b.len() - n - 1]
        }),
    decreases a.len(),
{
    let n = common_suffix(a, b) as int;
    if a.len() > 0 && b.len() > 0 && a.last() == b.last() {
        let x = a.drop_last();
        let y = b.drop_last();
        lemma_common_suffix(x, y);
        assert(a.skip(a.len() - n) =~= x.skip(x.len() - (n - 1)).push(a.last()));
        assert(b.skip(b.len() - n) =~= y.skip(y.len() - (n - 1)).push(b.last()));
    } else {
        assert(a.skip(a.len() as int) =~= b.skip(b.len() as int));
    }
}

/// What lies outside the changed lines of two texts is the same in both, and where both have
/// changed lines, these differ in their first and in their last.
pub proof fn law_changed_span_is_tight(before: Seq<char>, after: Seq<char>)
    ensures
        ({
            let old = text_lines(before);
            let new = text_lines(after);
            let (was, is, start) = span_between(before, after);
            exists|head: int, tail: int|
                #![trigger old.take(head), old.skip(old.len() - tail)]
                {
                    &&& 0 <= head && 0 <= tail
                    &&& head + tail <= old.len()
                    &&& head + tail <= new.len()
                    &&& start == head + 1
                    &&& old.take(head) == new.take(head)
                    &&& old.skip(old.len() - tail) == new.skip(new.len() - tail)
                    &&& was == join_lines(old.subrange(head, old.len() - tail))
                    &&& is == join_lines(new.subrange(head, new.len() - tail))
                    &&& head + tail < old.len() && head + tail < new.len() ==> old[head] != new[head]
                        && old[old.len() - tail - 1] != new[new.len() - tail - 1]
                }
        }),
{
    let old = text_lines(before);
    let new = text_lines(after);
    let head = common_prefix(old, new) as int;
    lemma_common_prefix(old, new);
    let x = old.skip(head);
    let y = new.skip(head);
    let tail = common_suffix(x, y) as int;
    lemma_common_suffix(x, y);
    assert(x.take(x.len() - tail) =~= old.subrange(head, old.len() - tail));
    assert(y.take(y.len() - tail) =~= new.subrange(head, new.len() - tail));
    assert(x.skip(x.len() - tail) =~= old.skip(old.len() - tail));
    assert(y.skip(y.len() - tail) =~= new.skip(new.len() - tail));
    if head + tail < old.len() && head + tail < new.len() {
        assert(x[x.len() - tail - 1] == old[old.len() - tail - 1]);
        assert(y[y.len() - tail - 1] == new[new.len() - tail - 1]);
    }
    assert(old.take(head) == new.take(head));
}

/// A capped diff has no more lines than may be shown, and one that says that more were left out.
pub proof fn law_capped_diff_is_short(diff: Seq<char>)
    ensures
        text_lines(capped_diff(diff)).len() <= HASHLINE_DIFF_MAX_LINES + 1,
{
    let lines = text_lines(diff);
    if lines.len() > HASHLINE_DIFF_MAX_LINES {
        reveal_strlit("\n...");
        reveal_strlit("...");
        let shown = lines.take(HASHLINE_DIFF_MAX_LINES as int);
        let last = "..."@;
        let all = shown.push(last);
        assert("\n..."@ =~= newline() + last);
        lemma_lines_nonempty(diff);
        lemma_lines_in_line(diff);
        assert forall|i: int| 0 <= i < all.len() implies all_of(
            #[trigger] all[i],
            CharClass::InLine,
        ) by {
            if i < shown.len() {
                assert(all_of(lines_of(diff)[i], CharClass::InLine));
                assert forall|j: int| 0 <= j < all[i].len() implies class_has(
                    CharClass::InLine,
                    #[trigger] all[i][j],
                ) by {
                    assert(all[i][j] == lines_of(diff)[i][j]);
                    assert(class_has(CharClass::InLine, lines_of(diff)[i][j]));
                }
            } else {
                assert(all[i] == last);
            }
        }
        law_lines_of_join(all);
        assert(all.drop_last() =~= shown);
        assert(join_lines(all) =~= join_lines(shown) + newline() + last);
        assert(capped_diff(diff) =~= join_lines(all));
    }
}

proof fn lemma_byte_prefix(s: Seq<char>, max: nat)
    ensures
        byte_len(byte_prefix(s, max)) <= max,
        byte_prefix(s, max).is_prefix_of(s),
    decreases s.len(),
{
    if byte_len(s) <= max {
        assert(s.take(s.len() as int) =~= s);
    } else if s.len() > 0 {
        lemma_byte_prefix(s.drop_last(), max);
    }
}

/// A preview takes no more bytes than it may have, and those of the ellipsis.
pub proof fn law_preview_is_short(diff: Seq<char>)
    ensures
        touch_preview(diff) matches Some(preview) ==> byte_len(preview)
            <= FILE_TOUCH_PREVIEW_MAX_BYTES + byte_len("\n\u{2026}"@),
{
    let t = trimmed(diff);
    if t.len() > 0 {
        let lines = text_lines(t);
        let many = lines.len() > FILE_TOUCH_PREVIEW_MAX_LINES;
        let head = join_lines(
            if many {
                lines.take(FILE_TOUCH_PREVIEW_MAX_LINES as int)
            } else {
                lines
            },
        );
        let cut = byte_prefix(head, FILE_TOUCH_PREVIEW_MAX_BYTES as nat);
        lemma_byte_prefix(head, FILE_TOUCH_PREVIEW_MAX_BYTES as nat);
        let kept = trimmed_end(cut, CharClass::White);
        lemma_trailing(cut, CharClass::White);
        assert(cut =~= kept + cut.skip(kept.len() as int));
        lemma_byte_len_concat(kept, cut.skip(kept.len() as int));
        lemma_byte_len_concat(kept, "\n\u{2026}"@);
        lemma_byte_len_concat(head, "\n\u{2026}"@);
    }
}

} // verus!
