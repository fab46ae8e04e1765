//! What is shown of changes: diffs, previews, context and reports.

use crate::clipboard::is_clip_edit;
use crate::diff::{
    broken_lines, capped_diff, change_rows, changed_span_diff, common_prefix, common_suffix,
    diff_text, diffable, lemma_common_prefix, lemma_common_suffix, lines_passed, span_between,
    text_changes, touch_preview, TextChangeView,
};
use crate::edit::{
    context_end, context_rows, context_start, first_loose_match, line_of, matches_loosely,
    not_found_message, preview_of, reported, requested, resolution_rows, results_text,
    right_aligned, section_rows, warning_rows, RequestView, StringEditView,
};
use crate::patcher::{has_blocks, ResultView};
use crate::recovery::LineChange;
use crate::search::{first_match, text_lines};
use crate::substitution::{
    law_first_match_is_leftmost, law_line_feeds_separate_lines, line_feeds, occurs_at,
};
use crate::text::{
    byte_len, byte_prefix, class_has, decimal, is_blank, is_white, join_lines, leading,
    lemma_leading, lemma_trailing, trailing, trimmed, trimmed_end, trimmed_start, CharClass,
};
use crate::types::{BlockResolution, EditView};
use vstd::prelude::*;

verus! {

// ---------------------------------------------------------------------------------------------
// Trimming

/// Trimming takes white space off both ends of a text, all of it, and nothing else.
pub proof fn law_trimming_takes_off_white_space(s: Seq<char>)
    ensures
        exists|front: Seq<char>, back: Seq<char>|
            is_blank(front) && is_blank(back) && s == #[trigger] (front + trimmed(s) + back),
        trimmed(s).len() > 0 ==> !is_white(trimmed(s)[0]) && !is_white(trimmed(s).last()),
{
    let n = leading(s, CharClass::White);
    lemma_leading(s, CharClass::White);
    let t = trimmed_start(s, CharClass::White);
    lemma_trailing(t, CharClass::White);
    let m = trailing(t, CharClass::White);
    let front = s.take(n as int);
    let back = t.skip(t.len() - m);
    assert forall|i: int| 0 <= i < front.len() implies is_white(#[trigger] front[i]) by {
        assert(class_has(CharClass::White, s[i]));
    }
    assert forall|i: int| 0 <= i < back.len() implies is_white(#[trigger] back[i]) by {
        assert(class_has(CharClass::White, t[t.len() - m + i]));
    }
    assert(s =~= front + trimmed(s) + back);
    if trimmed(s).len() > 0 {
        assert(trimmed(s)[0] == s[n as int]);
        assert(trimmed(s).last() == t[t.len() - m - 1]);
    }
}

// ---------------------------------------------------------------------------------------------
// Diffs

proof fn lemma_lines_passed(changes: Seq<TextChangeView>)
    ensures
        lines_passed(changes, false) == changes.filter(
            |c: TextChangeView| c.kind != LineChange::Insert,
        ).len(),
        lines_passed(changes, true) == changes.filter(
            |c: TextChangeView| c.kind != LineChange::Delete,
        ).len(),
    decreases changes.len(),
{
    reveal(Seq::filter);
    if changes.len() > 0 {
        lemma_lines_passed(changes.drop_last());
    }
}

/// A diff has a row for each line that only one of the texts has, unless it is blank: the number of
/// the line in its own text, a minus sign for the old text or a plus sign for the new one, and the
/// line without white space around it. Lines of both texts have no row.
pub proof fn law_diff_rows(changes: Seq<TextChangeView>, change: TextChangeView, start: nat)
    ensures
        change_rows(seq![], start) == Seq::<char>::empty(),
        ({
            let before = change_rows(changes, start);
            let text = trimmed(change.value);
            let old = start + changes.filter(
                |c: TextChangeView| c.kind != LineChange::Insert,
            ).len();
            let new = start + changes.filter(
                |c: TextChangeView| c.kind != LineChange::Delete,
            ).len();
            change_rows(changes.push(change), start) == if text.len() == 0 || change.kind
                == LineChange::Equal {
                before
            } else if change.kind == LineChange::Delete {
                before + decimal(old) + "- "@ + text + "\n"@
            } else {
                before + decimal(new) + "+ "@ + text + "\n"@
            }
        }),
        diff_text(changes, start) == trimmed_end(change_rows(changes, start), CharClass::White),
{
    lemma_lines_passed(changes);
    assert(changes.push(change).drop_last() =~= changes);
}

/// The changed lines of two texts begin at the first line in which they differ, or at which one of
/// them ends, and end before the lines that both end in.
pub proof fn law_changed_span_begins_at_first_difference(before: Seq<char>, after: Seq<char>)
    ensures
        ({
            let old = text_lines(before);
            let new = text_lines(after);
            let (was, is, start) = span_between(before, after);
            let head = start - 1;
            &&& 0 <= head <= old.len() && head <= new.len()
            &&& forall|i: int| 0 <= i < head ==> #[trigger] old[i] == new[i]
            &&& head < old.len() && head < new.len() ==> old[head] != new[head]
            &&& exists|tail: int|
                {
                    &&& 0 <= tail <= old.len() - head && tail <= new.len() - head
                    &&& #[trigger] old.skip(old.len() - tail) == new.skip(new.len() - tail)
                    &&& tail < old.len() - head && tail < new.len() - head ==> old[old.len() - tail
                        - 1] != new[new.len() - tail - 1]
                    &&& was == join_lines(old.subrange(head, old.len() - tail))
                    &&& is == join_lines(new.subrange(head, new.len() - tail))
                }
        }),
{
    let old = text_lines(before);
    let new = text_lines(after);
    let head = common_prefix(old, new) as int;
    lemma_common_prefix(old, new);
    assert forall|i: int| 0 <= i < head implies #[trigger] old[i] == new[i] by {
        assert(old.take(head)[i] == new.take(head)[i]);
    }
    let x = old.skip(head);
    let y = new.skip(head);
    let tail = common_suffix(x, y) as int;
    lemma_common_suffix(x, y);
    assert(x.take(x.len() - tail) =~= old.subrange(head, old.len() - tail));
    assert(y.take(y.len() - tail) =~= new.subrange(head, new.len() - tail));
    assert(x.skip(x.len() - tail) =~= old.skip(old.len() - tail));
    assert(y.skip(y.len() - tail) =~= new.skip(new.len() - tail));
    if tail < x.len() && tail < y.len() {
        assert(x[x.len() - tail - 1] == old[old.len() - tail - 1]);
        assert(y[y.len() - tail - 1] == new[new.len() - tail - 1]);
    }
}

/// A diff of up to thirty lines is shown whole; of a longer one the first thirty lines, and three
/// dots.
pub proof fn law_long_diffs_are_cut(diff: Seq<char>)
    ensures
        text_lines(diff).len() <= 30 ==> capped_diff(diff) == diff,
        text_lines(diff).len() > 30 ==> capped_diff(diff) == join_lines(text_lines(diff).take(30))
            + "\n..."@,
{
}

/// The diff that is shown of two texts is that of their changed lines, numbered as in the texts.
pub proof fn law_changed_span_is_shown(before: Seq<char>, after: Seq<char>)
    ensures
        ({
            let (was, is, start) = span_between(before, after);
            changed_span_diff(before, after) == capped_diff(
                diff_text(text_changes(was, is), start),
            )
        }),
{
}

proof fn lemma_byte_prefix_longest(s: Seq<char>, max: nat)
    ensures
        ({
            let p = byte_prefix(s, max);
            &&& p.len() <= s.len()
            &&& p == s.take(p.len() as int)
            &&& byte_len(p) <= max
            &&& p.len() < s.len() ==> byte_len(s.take(p.len() as int + 1)) > max
        }),
    decreases s.len(),
{
    if byte_len(s) <= max {
        assert(s.take(s.len() as int) =~= s);
    } else if s.len() > 0 {
        let front = s.drop_last();
        lemma_byte_prefix_longest(front, max);
        let p = byte_prefix(front, max);
        assert(front.take(p.len() as int) =~= s.take(p.len() as int));
        if p.len() < front.len() {
            assert(front.take(p.len() as int + 1) =~= s.take(p.len() as int + 1));
        } else {
            assert(s.take(p.len() as int + 1) =~= s);
        }
    }
}

/// A text is cut to a number of bytes at a character: as much of its front as fits.
pub proof fn law_texts_are_cut_at_characters(s: Seq<char>, max: nat)
    ensures
        ({
            let p = byte_prefix(s, max);
            &&& p.len() <= s.len()
            &&& p == s.take(p.len() as int)
            &&& byte_len(p) <= max
            &&& p.len() < s.len() ==> byte_len(s.take(p.len() as int + 1)) > max
        }),
{
    lemma_byte_prefix_longest(s, max);
}

/// A notice has the first six lines of a diff, as far as they take no more than two hundred and
/// forty bytes, and an ellipsis on a line of its own where that is not all. Of a blank diff there
/// is none.
pub proof fn law_preview_in_full(diff: Seq<char>)
    ensures
        ({
            let t = trimmed(diff);
            let lines = text_lines(t);
            let head = if lines.len() > 6 {
                join_lines(lines.take(6))
            } else {
                join_lines(lines)
            };
            match touch_preview(diff) {
                None => t.len() == 0,
                Some(shown) => t.len() > 0 && shown == if byte_len(head) > 240 {
                    trimmed_end(byte_prefix(head, 240), CharClass::White) + "\n\u{2026}"@
                } else if lines.len() > 6 {
                    head + "\n\u{2026}"@
                } else {
                    head
                },
            }
        }),
{
}

// ---------------------------------------------------------------------------------------------
// Requests

/// A request with a patch that is not blank asks for that patch, without white space around it. Any
/// other asks for a replacement, and needs a file and two texts that differ.
pub proof fn law_requests_are_told_apart(
    input: Option<Seq<char>>,
    file_path: Option<Seq<char>>,
    old_string: Option<Seq<char>>,
    new_string: Option<Seq<char>>,
)
    ensures
        match requested(input, file_path, old_string, new_string) {
            Ok(RequestView::Hashline { patch }) => input matches Some(text) && patch == trimmed(text)
                && patch.len() > 0,
            Ok(RequestView::Replace { file_path: f, old_string: o, new_string: n }) => {
                &&& !(input matches Some(text) && trimmed(text).len() > 0)
                &&& file_path == Some(f) && old_string == Some(o) && new_string == Some(n)
                &&& o != n
            },
            Err(message) => {
                &&& !(input matches Some(text) && trimmed(text).len() > 0)
                &&& if file_path is None || old_string is None || new_string is None {
                    message == "edit needs hashline `input` or file_path + old_string + new_string"@
                } else {
                    old_string == new_string && message
                        == "old_string and new_string must be different"@
                }
            },
        },
{
}

/// The lines of `old` stand from line `at` on in `lines`, but for white space around each.
pub open spec fn stands_loosely(lines: Seq<Seq<char>>, at: int, old: Seq<Seq<char>>) -> bool {
    0 <= at && at + old.len() <= lines.len() && forall|k: int|
        0 <= k < old.len() ==> trimmed(#[trigger] lines[at + k]) == trimmed(old[k])
}

proof fn lemma_loose_match(lines: Seq<Seq<char>>, at: int, old: Seq<Seq<char>>)
    requires
        0 <= at,
    ensures
        match first_loose_match(lines, at, old) {
            Some(i) => at <= i && stands_loosely(lines, i, old) && forall|j: int|
                at <= j < i ==> !(#[trigger] stands_loosely(lines, j, old)),
            None => forall|j: int| at <= j ==> !(#[trigger] stands_loosely(lines, j, old)),
        },
    decreases lines.len() - at,
{
    if at + old.len() <= lines.len() {
        assert(matches_loosely(lines, at, old) == stands_loosely(lines, at, old)) by {
            if matches_loosely(lines, at, old) {
                assert forall|k: int| 0 <= k < old.len() implies trimmed(#[trigger] lines[at + k])
                    == trimmed(old[k]) by {}
            }
            if stands_loosely(lines, at, old) {
                assert forall|k: int| 0 <= k < old.len() implies trimmed(lines[at + k]) == trimmed(
                    #[trigger] old[k],
                ) by {
                    assert(lines[at + k] == lines[at + k]);
                }
            }
        }
        if at < lines.len() {
            if !matches_loosely(lines, at, old) {
                lemma_loose_match(lines, at + 1, old);
            }
        } else if !matches_loosely(lines, at, old) {
            assert(old.len() == 0);
        }
    }
}

/// What is said of a text that does not occur: that it does without the white space around it,
/// where that is so; else the first line from which its lines stand in the file but for white space
/// around each; else only that it does not.
pub proof fn law_near_misses_are_told(
    content: Seq<char>,
    old_string: Seq<char>,
    file_path: Seq<char>,
)
    ensures
        ({
            let t = trimmed(old_string);
            let lines = text_lines(content);
            let old = text_lines(old_string);
            let message = not_found_message(content, old_string, file_path);
            if t != old_string && exists|j: int| #[trigger] occurs_at(content, t, j) {
                message
                    == "old_string not found exactly, but found after trimming whitespace.\nTry using the exact string from the file, including leading/trailing whitespace."@
            } else if exists|i: int| #[trigger] stands_loosely(lines, i, old) {
                exists|i: int|
                    {
                        &&& #[trigger] stands_loosely(lines, i, old)
                        &&& forall|j: int| j < i ==> !(#[trigger] stands_loosely(lines, j, old))
                        &&& message
                            == "old_string not found exactly, but found with different indentation around line "@
                            + decimal((i + 1) as nat)
                            + ".\nMake sure to preserve the exact whitespace from the file."@
                    }
            } else {
                message == "old_string not found in "@ + file_path
                    + ".\nUse the read tool to see the current file contents."@
            }
        }),
{
    let t = trimmed(old_string);
    let lines = text_lines(content);
    let old = text_lines(old_string);
    law_first_match_is_leftmost(content, t);
    lemma_loose_match(lines, 0, old);
    if let Some(i) = first_match(content, t) {
        assert(occurs_at(content, t, i as int));
    }
    if let Some(i) = first_loose_match(lines, 0, old) {
        assert(stands_loosely(lines, i, old));
        assert forall|j: int| j < i implies !(#[trigger] stands_loosely(lines, j, old)) by {}
    }
}

// ---------------------------------------------------------------------------------------------
// Reports

/// The context of an edit is its lines and as many before and after it as are asked for, as far as
/// the text has them: each with its number, set to the right in four columns, and a bar.
pub proof fn law_context_of_an_edit(
    lines: Seq<Seq<char>>,
    edit_start: nat,
    edit_end: nat,
    padding: nat,
)
    requires
        edit_start >= 1,
        context_start(edit_start, padding) <= context_end(edit_end, padding, lines.len()),
    ensures
        ({
            let first = context_start(edit_start, padding) + 1;
            let last = context_end(edit_end, padding, lines.len());
            let rows = context_rows(lines, context_start(edit_start, padding), last);
            &&& first == if edit_start > padding {
                (edit_start - padding) as int
            } else {
                1
            }
            &&& last == if edit_end + padding <= lines.len() {
                edit_end + padding
            } else {
                lines.len()
            }
            &&& rows.len() == last - first + 1
            &&& forall|i: int|
                0 <= i < rows.len() ==> {
                    let digits = decimal((first + i) as nat);
                    let pad = Seq::new(
                        if digits.len() < 4 {
                            (4 - digits.len()) as nat
                        } else {
                            0
                        },
                        |k: int| ' ',
                    );
                    #[trigger] rows[i] == pad + digits + "\u{2502} "@ + lines[first + i - 1]
                }
        }),
{
    let start = context_start(edit_start, padding);
    let last = context_end(edit_end, padding, lines.len());
    let rows = context_rows(lines, start, last);
    assert forall|i: int| 0 <= i < rows.len() implies {
        let digits = decimal((start + 1 + i) as nat);
        let pad = Seq::new(
            if digits.len() < 4 {
                (4 - digits.len()) as nat
            } else {
                0
            },
            |k: int| ' ',
        );
        #[trigger] rows[i] == pad + digits + "\u{2502} "@ + lines[start + i]
    } by {
        let digits = decimal((start + 1 + i) as nat);
        let pad = Seq::new(
            if digits.len() < 4 {
                (4 - digits.len()) as nat
            } else {
                0
            },
            |k: int| ' ',
        );
        assert(right_aligned((start + i + 1) as nat) =~= pad + digits);
    }
}

/// What is reported of a replacement: the file, how often the text was replaced, the diff and the
/// three lines of context on either side; in short, the lines and the number.
pub proof fn law_replacement_report(file_path: Seq<char>, edit: StringEditView, diff: Seq<char>)
    ensures
        ({
            let r = reported(file_path, edit, diff);
            let lines = text_lines(edit.content);
            let start = context_start(edit.start_line, 3);
            let end = context_end(edit.end_line, 3, lines.len());
            &&& r.body == "Edited "@ + file_path + ": replaced "@ + decimal(edit.occurrences)
                + " occurrence(s)\n"@ + diff + "\n\nContext after edit (lines "@ + decimal(
                start + 1,
            ) + "-"@ + decimal(end) + "):\n"@ + join_lines(context_rows(lines, start, end))
            &&& edit.occurrences == 1 ==> r.summary == "edited lines "@ + decimal(edit.start_line)
                + "-"@ + decimal(edit.end_line) + " ("@ + decimal(edit.occurrences)
                + " occurrence"@ + ""@ + ")"@
            &&& edit.occurrences != 1 ==> r.summary == "edited lines "@ + decimal(edit.start_line)
                + "-"@ + decimal(edit.end_line) + " ("@ + decimal(edit.occurrences)
                + " occurrence"@ + "s"@ + ")"@
            &&& r.detail == touch_preview(diff)
        }),
{
}

/// What is said of a section: its header, what happened to the file, and the warnings, if any. Of
/// an update it is said where the file went, what blocks were resolved to, the first changed line
/// and the diff.
pub proof fn law_section_report(r: ResultView, preview: Seq<char>)
    ensures
        ({
            let warnings = if r.warnings.len() > 0 {
                "Warnings:\n"@ + warning_rows(r.warnings)
            } else {
                seq![]
            };
            let moved = match r.move_dest {
                Some(dest) => "moved to "@ + dest + "\n"@,
                None => seq![],
            };
            let changed = match r.first_changed_line {
                Some(line) => "first changed line "@ + decimal(line) + "\n"@,
                None => seq![],
            };
            let shown = if preview.len() > 0 && preview.last() != '\n' {
                preview + "\n"@
            } else {
                preview
            };
            &&& r.op == "delete"@ ==> section_rows(r, preview) == r.header + "\n"@
                + "deleted file\n"@ + warnings
            &&& r.op == "noop"@ ==> section_rows(r, preview) == r.header + "\n"@ + "no changes\n"@
                + warnings
            &&& r.op == "update"@ ==> section_rows(r, preview) == r.header + "\n"@ + (moved
                + resolution_rows(r.block_resolutions) + changed + shown) + warnings
        }),
{
    reveal_strlit("delete");
    reveal_strlit("noop");
    reveal_strlit("update");
    assert("delete"@[0] != "noop"@[0]);
    assert("update"@[0] != "noop"@[0]);
    assert("update"@[0] != "delete"@[0]);
}

/// Warnings and resolved blocks have a row each, and sections are set apart by an empty line.
pub proof fn law_rows_of_a_report(
    warnings: Seq<Seq<char>>,
    warning: Seq<char>,
    resolutions: Seq<BlockResolution>,
    resolution: BlockResolution,
    results: Seq<ResultView>,
    result: ResultView,
    previews: Seq<Seq<char>>,
)
    requires
        results.len() < previews.len(),
    ensures
        warning_rows(seq![]) == Seq::<char>::empty(),
        warning_rows(warnings.push(warning)) == warning_rows(warnings) + warning + "\n"@,
        resolution_rows(seq![]) == Seq::<char>::empty(),
        resolution_rows(resolutions.push(resolution)) == resolution_rows(resolutions) + "PUT "@
            + decimal(resolution.line as nat) + "*: \u{2192} resolved lines "@ + decimal(
            resolution.start as nat,
        ) + "-"@ + decimal(resolution.end as nat) + "\n"@,
        results_text(seq![], previews) == Seq::<char>::empty(),
        ({
            let before = results_text(results, previews);
            let rows = section_rows(result, previews[results.len() as int]);
            results_text(results.push(result), previews) == if before.len() > 0 {
                before + "\n"@ + rows
            } else {
                rows
            }
        }),
{
    assert(warnings.push(warning).drop_last() =~= warnings);
    assert(resolutions.push(resolution).drop_last() =~= resolutions);
    assert(results.push(result).drop_last() =~= results);
    let before = results_text(results, previews);
    let rows = section_rows(result, previews[results.len() as int]);
    if before.len() == 0 {
        assert(before + rows =~= rows);
    }
}

proof fn lemma_few_broken_lines(text: Seq<char>)
    ensures
        broken_lines(text).len() <= text.len(),
        text.len() > 0 ==> broken_lines(text).len() > 0,
    decreases text.len(),
{
    if text.len() > 0 {
        lemma_few_broken_lines(text.drop_last());
    }
}

/// The diff of a section is shown wherever its changed lines are not too many to be compared.
pub proof fn law_section_diff_is_shown(r: ResultView)
    requires
        r.before.len() < usize::MAX,
        ({
            let (was, is, _) = span_between(r.before, r.after);
            was.len() + is.len() <= u32::MAX
        }),
    ensures
        preview_of(r) == changed_span_diff(r.before, r.after),
{
    let (was, is, _) = span_between(r.before, r.after);
    lemma_few_broken_lines(was);
    lemma_few_broken_lines(is);
    (broken_lines(was) + broken_lines(is)).lemma_cardinality_of_set();
}

/// Texts that are not too long can be compared, and so can their changed lines.
pub proof fn law_texts_that_can_be_compared(old: Seq<char>, new: Seq<char>)
    requires
        old.len() + new.len() <= u32::MAX,
    ensures
        diffable(old, new),
{
    lemma_few_broken_lines(old);
    lemma_few_broken_lines(new);
    (broken_lines(old) + broken_lines(new)).lemma_cardinality_of_set();
}

/// The line of a text that does not occur is the first; else it is the one on which it begins
/// first.
pub proof fn law_line_of_a_text(content: Seq<char>, text: Seq<char>)
    ensures
        (forall|j: int| !(#[trigger] occurs_at(content, text, j))) ==> line_of(content, text) == 1,
        forall|i: int|
            #[trigger] occurs_at(content, text, i) && (forall|j: int|
                j < i ==> !(#[trigger] occurs_at(content, text, j))) ==> line_of(content, text) == 1
                + line_feeds(content.take(i)),
{
    law_first_match_is_leftmost(content, text);
    if let Some(n) = first_match(content, text) {
        law_line_feeds_separate_lines(content.take(n as int));
        assert(occurs_at(content, text, n as int));
    }
}

/// Cuts and pastes are the edits that need registers, and block edits those that need a structure.
pub proof fn law_kinds_of_edits(edits: Seq<EditView>, edit: EditView)
    ensures
        is_clip_edit(edit) <==> edit is Cut || edit is Paste,
        has_blocks(edits) <==> exists|i: int| 0 <= i < edits.len() && (#[trigger] edits[i]) is Block,
{
}

} // verus!
