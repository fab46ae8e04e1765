//! The edit tool: what it does with a request, apart from reading and writing files.

use crate::diff::{
    build_file_touch_preview, can_diff, can_diff_span, changed_span, changed_span_diff, diff_text,
    diffable, generate_changed_span_diff, generate_diff, leads_between, shows_span, text_changes,
    touch_preview,
};
use crate::patcher::{ResultView, SectionResult};
use crate::search::{
    all_replaced, count_matches, find, first_match, first_replaced, lemma_first_match, match_count,
    replace_all_matches, replace_first, split_text_lines, text_lines,
};
use crate::text::{
    blank, chars_of, class_has, decimal, ends_with_char, is_blank, join_lines, join_text, last_is,
    leading, lemma_leading, lemma_leading_is, lemma_lines_len, lemma_lines_nonempty, line_spans,
    lines_of, push_decimal, push_number, same_chars, same_text, string_of, strs, take, total_len,
    trim, trimmed, CharClass,
};
use crate::types::{opt_text, BlockResolution, Patch};
use vstd::prelude::*;

verus! {

/// The tool that edits files.
pub struct EditTool;

impl EditTool {
    pub fn new() -> (r: Self)
        ensures
            r == EditTool,
    {
        EditTool
    }
}

#[derive(Debug)]
pub enum EditError {
    Message(String),
}

impl View for EditError {
    type V = Seq<char>;

    open spec fn view(&self) -> Seq<char> {
        match self {
            EditError::Message(m) => m@,
        }
    }
}

impl EditError {
    pub fn message(&self) -> (m: String)
        ensures
            m@ == self@,
    {
        match self {
            EditError::Message(m) => m.clone(),
        }
    }
}

/// How many lines around an edit are shown.
pub const CONTEXT_LINES: usize = 3;

// ---------------------------------------------------------------------------------------------
// Requests

/// What a request asks for.
#[derive(Debug, PartialEq, Eq)]
pub enum EditRequest {
    Hashline { patch: String },
    Replace { file_path: String, old_string: String, new_string: String },
}

#[verifier::ext_equal]
pub enum RequestView {
    Hashline { patch: Seq<char> },
    Replace { file_path: Seq<char>, old_string: Seq<char>, new_string: Seq<char> },
}

impl View for EditRequest {
    type V = RequestView;

    open spec fn view(&self) -> RequestView {
        match *self {
            EditRequest::Hashline { patch } => RequestView::Hashline { patch: patch@ },
            EditRequest::Replace { file_path, old_string, new_string } => RequestView::Replace {
                file_path: file_path@,
                old_string: old_string@,
                new_string: new_string@,
            },
        }
    }
}

/// A patch that is not blank goes before a replacement, which needs all three of its strings.
pub open spec fn requested(
    input: Option<Seq<char>>,
    file_path: Option<Seq<char>>,
    old_string: Option<Seq<char>>,
    new_string: Option<Seq<char>>,
) -> Result<RequestView, Seq<char>> {
    if input is Some && trimmed(input->0).len() > 0 {
        Ok(RequestView::Hashline { patch: trimmed(input->0) })
    } else if file_path is None || old_string is None || new_string is None {
        Err("edit needs hashline `input` or file_path + old_string + new_string"@)
    } else if old_string->0 == new_string->0 {
        Err("old_string and new_string must be different"@)
    } else {
        Ok(
            RequestView::Replace {
                file_path: file_path->0,
                old_string: old_string->0,
                new_string: new_string->0,
            },
        )
    }
}

/// Decide what a request asks for.
pub fn edit_request(
    input: Option<String>,
    file_path: Option<String>,
    old_string: Option<String>,
    new_string: Option<String>,
) -> (res: Result<EditRequest, EditError>)
    ensures
        ({
            let expected = requested(
                opt_text(input),
                opt_text(file_path),
                opt_text(old_string),
                opt_text(new_string),
            );
            match res {
                Ok(r) => expected == Ok::<RequestView, Seq<char>>(r@),
                Err(e) => expected == Err::<RequestView, Seq<char>>(e@),
            }
        }),
{
    if let Some(input) = &input {
        let chars = chars_of(input.as_str());
        let patch = trim(chars.as_slice());
        if patch.len() > 0 {
            return Ok(EditRequest::Hashline { patch: string_of(patch) });
        }
    }
    match (file_path, old_string, new_string) {
        (Some(file_path), Some(old_string), Some(new_string)) => {
            if same_text(old_string.as_str(), new_string.as_str()) {
                return Err(
                    EditError::Message("old_string and new_string must be different".to_owned()),
                );
            }
            Ok(EditRequest::Replace { file_path, old_string, new_string })
        },
        _ => Err(
            EditError::Message(
                "edit needs hashline `input` or file_path + old_string + new_string".to_owned(),
            ),
        ),
    }
}

/// An intent that says something.
pub fn stated_intent(intent: Option<String>) -> (r: Option<String>)
    ensures
        opt_text(r) == match opt_text(intent) {
            Some(text) => if is_blank(text) {
                None
            } else {
                Some(text)
            },
            None => None,
        },
{
    match intent {
        Some(text) => {
            if blank(chars_of(text.as_str()).as_slice()) {
                None
            } else {
                Some(text)
            }
        },
        None => None,
    }
}

// ---------------------------------------------------------------------------------------------
// Line numbers and context

/// The number of the line on which a text begins first, or one where it does not occur.
pub open spec fn line_of(content: Seq<char>, substring: Seq<char>) -> nat {
    match first_match(content, substring) {
        Some(i) => lines_of(content.take(i as int)).len(),
        None => 1,
    }
}

/// Find the 1-based line number where a substring starts
pub fn find_line_number(content: &str, substring: &str) -> (n: usize)
    ensures
        n == line_of(content@, substring@),
        n >= 1,
{
    let chars = chars_of(content);
    match find(chars.as_slice(), chars_of(substring).as_slice()) {
        Some(i) => {
            let spans = line_spans(take(chars.as_slice(), i));
            spans.len()
        },
        None => 1,
    }
}

/// The first line that is shown around an edit, counted from zero.
pub open spec fn context_start(edit_start: nat, padding: nat) -> nat {
    if edit_start > padding + 1 {
        (edit_start - padding - 1) as nat
    } else {
        0
    }
}

/// The number of the last line that is shown around an edit.
pub open spec fn context_end(edit_end: nat, padding: nat, count: nat) -> nat {
    if edit_end + padding < count {
        edit_end + padding
    } else {
        count
    }
}

/// A line number, set to the right in four columns.
pub open spec fn right_aligned(n: nat) -> Seq<char> {
    let digits = decimal(n);
    Seq::new(
        if digits.len() < 4 {
            (4 - digits.len()) as nat
        } else {
            0
        },
        |i: int| ' ',
    ) + digits
}

pub open spec fn context_rows(lines: Seq<Seq<char>>, start: nat, end: nat) -> Seq<Seq<char>> {
    Seq::new(
        (end - start) as nat,
        |i: int| right_aligned((start + i + 1) as nat) + "\u{2502} "@ + lines[start + i],
    )
}

fn push_right_aligned(out: &mut String, n: usize)
    ensures
        final(out)@ == old(out)@ + right_aligned(n as nat),
{
    let mut digits = String::new();
    push_decimal(&mut digits, n);
    proof {
        assert(digits@ =~= decimal(n as nat));
    }
    let count = chars_of(digits.as_str()).len();
    let ghost before = out@;
    let mut k: usize = count;
    while k < 4
        invariant
            count <= k,
            k <= 4 || k == count,
            out@ == before + Seq::new((k - count) as nat, |i: int| ' '),
        decreases 4 - k,
    {
        out.push(' ');
        proof {
            assert(out@ =~= before + Seq::new((k + 1 - count) as nat, |i: int| ' '));
        }
        k += 1;
    }
    let ghost padded = out@;
    out.append(digits.as_str());
    proof {
        assert(out@ =~= before + right_aligned(n as nat));
    }
}

/// Extract lines around the edited region, returns (start_line, end_line, content)
pub fn extract_context(content: &str, edit_start: usize, edit_end: usize, padding: usize) -> (r: (
    usize,
    usize,
    String,
))
    requires
        padding < usize::MAX,
        edit_end + padding <= usize::MAX,
        context_start(edit_start as nat, padding as nat) <= context_end(
            edit_end as nat,
            padding as nat,
            text_lines(content@).len(),
        ),
    ensures
        ({
            let lines = text_lines(content@);
            let start = context_start(edit_start as nat, padding as nat);
            let end = context_end(edit_end as nat, padding as nat, lines.len());
            &&& r.0 == start + 1
            &&& r.1 == end
            &&& r.2@ == join_lines(context_rows(lines, start, end))
        }),
{
    let lines = split_text_lines(content);
    let ghost texts = strs(lines@);
    proof {
        assert(texts.len() == lines@.len());
    }
    let start = if edit_start > padding + 1 {
        edit_start - padding - 1
    } else {
        0
    };
    let end = if edit_end + padding < lines.len() {
        edit_end + padding
    } else {
        lines.len()
    };
    let mut rows: Vec<String> = Vec::new();
    let mut i: usize = start;
    while i < end
        invariant
            start <= i <= end <= lines.len(),
            texts == strs(lines@),
            rows@.len() == i - start,
            forall|k: int|
                0 <= k < i - start ==> (#[trigger] rows@[k])@ == context_rows(
                    texts,
                    start as nat,
                    end as nat,
                )[k],
        decreases end - i,
    {
        let mut row = String::new();
        push_right_aligned(&mut row, i + 1);
        row.append("\u{2502} ");
        row.append(lines[i].as_str());
        proof {
            assert(texts[i as int] == lines@[i as int]@);
            assert(row@ =~= right_aligned((i + 1) as nat) + "\u{2502} "@ + texts[i as int]);
        }
        rows.push(row);
        i += 1;
    }
    proof {
        assert(strs(rows@) =~= context_rows(texts, start as nat, end as nat));
    }
    (start + 1, end, join_text(rows.as_slice()))
}

// ---------------------------------------------------------------------------------------------
// Near misses

/// Whether the lines of `old`, apart from white space at either end of each, stand in `lines` from
/// index `at` on.
pub open spec fn matches_loosely(lines: Seq<Seq<char>>, at: int, old: Seq<Seq<char>>) -> bool {
    forall|k: int| 0 <= k < old.len() ==> trimmed(lines[at + k]) == trimmed(#[trigger] old[k])
}

/// The first place where they do.
pub open spec fn first_loose_match(
    lines: Seq<Seq<char>>,
    at: int,
    old: Seq<Seq<char>>,
) -> Option<int>
    decreases lines.len() - at,
{
    if at < 0 || at + old.len() > lines.len() {
        None
    } else if matches_loosely(lines, at, old) {
        Some(at)
    } else {
        first_loose_match(lines, at + 1, old)
    }
}

/// What is said of a text that does not occur in the file.
pub open spec fn not_found_message(
    content: Seq<char>,
    old_string: Seq<char>,
    file_path: Seq<char>,
) -> Seq<char> {
    let t = trimmed(old_string);
    if first_match(content, t) is Some && t != old_string {
        "old_string not found exactly, but found after trimming whitespace.\nTry using the exact string from the file, including leading/trailing whitespace."@
    } else {
        match first_loose_match(text_lines(content), 0, text_lines(old_string)) {
            Some(i) => "old_string not found exactly, but found with different indentation around line "@
                + decimal((i + 1) as nat)
                + ".\nMake sure to preserve the exact whitespace from the file."@,
            None => "old_string not found in "@ + file_path
                + ".\nUse the read tool to see the current file contents."@,
        }
    }
}

fn window_matches(lines: &[String], at: usize, old: &[String]) -> (yes: bool)
    requires
        at + old@.len() <= lines@.len(),
    ensures
        yes == matches_loosely(strs(lines@), at as int, strs(old@)),
{
    let count = lines.len();
    let mut k: usize = 0;
    while k < old.len()
        invariant
            k <= old.len(),
            count == lines@.len(),
            at + old@.len() <= count,
            forall|j: int|
                0 <= j < k ==> trimmed(strs(lines@)[at + j]) == trimmed(#[trigger] strs(old@)[j]),
        decreases old.len() - k,
    {
        let a = chars_of(lines[at + k].as_str());
        let b = chars_of(old[k].as_str());
        proof {
            assert(strs(lines@)[at + k] == lines@[at + k]@);
            assert(strs(old@)[k as int] == old@[k as int]@);
        }
        if !same_chars(trim(a.as_slice()), trim(b.as_slice())) {
            return false;
        }
        k += 1;
    }
    true
}

/// A text that is not empty has a line.
proof fn lemma_has_lines(text: Seq<char>)
    requires
        text.len() > 0,
    ensures
        text_lines(text).len() > 0,
{
    lemma_lines_nonempty(text);
    lemma_lines_len(text);
    let all = lines_of(text);
    if all.len() == 1 {
        assert(all.drop_last() =~= seq![]);
        reveal_with_fuel(total_len, 2);
    }
}

/// Say why a text does not occur in the file.
pub fn try_flexible_match(content: &str, old_string: &str, file_path: &str) -> (e: EditError)
    requires
        old_string@.len() > 0,
    ensures
        e@ == not_found_message(content@, old_string@, file_path@),
{
    let old_chars = chars_of(old_string);
    let trimmed_old = trim(old_chars.as_slice());
    if find(chars_of(content).as_slice(), trimmed_old).is_some() && !same_chars(
        trimmed_old,
        old_chars.as_slice(),
    ) {
        return EditError::Message(
            "old_string not found exactly, but found after trimming whitespace.\nTry using the exact string from the file, including leading/trailing whitespace.".to_owned(),
        );
    }
    let old_lines = split_text_lines(old_string);
    let lines = split_text_lines(content);
    let ghost a = strs(lines@);
    let ghost b = strs(old_lines@);
    proof {
        assert(a.len() == lines@.len());
        assert(b.len() == old_lines@.len());
        lemma_has_lines(old_string@);
    }
    let mut i: usize = 0;
    while i < lines.len() && old_lines.len() <= lines.len() - i
        invariant
            i <= lines.len(),
            a == strs(lines@),
            b == strs(old_lines@),
            a == text_lines(content@),
            b == text_lines(old_string@),
            !(first_match(content@, trimmed(old_string@)) is Some && trimmed(old_string@)
                != old_string@),
            b.len() > 0,
            b.len() == old_lines@.len(),
            a.len() == lines@.len(),
            first_loose_match(a, 0, b) == first_loose_match(a, i as int, b),
        decreases lines.len() - i,
    {
        if window_matches(lines.as_slice(), i, old_lines.as_slice()) {
            let mut message =
                "old_string not found exactly, but found with different indentation around line ".to_owned();
            push_decimal(&mut message, i + 1);
            message.append(".\nMake sure to preserve the exact whitespace from the file.");
            return EditError::Message(message);
        }
        i += 1;
    }
    let mut message = "old_string not found in ".to_owned();
    message.append(file_path);
    message.append(".\nUse the read tool to see the current file contents.");
    EditError::Message(message)
}

// ---------------------------------------------------------------------------------------------
// Replacing a text

/// A replacement that can be written.
pub struct StringEdit {
    pub content: String,
    pub occurrences: u128,
    pub start_line: usize,
    pub end_line: usize,
}

#[verifier::ext_equal]
pub struct StringEditView {
    pub content: Seq<char>,
    pub occurrences: nat,
    pub start_line: nat,
    pub end_line: nat,
}

impl View for StringEdit {
    type V = StringEditView;

    open spec fn view(&self) -> StringEditView {
        StringEditView {
            content: self.content@,
            occurrences: self.occurrences as nat,
            start_line: self.start_line as nat,
            end_line: self.end_line as nat,
        }
    }
}

pub open spec fn ambiguous_message(occurrences: nat) -> Seq<char> {
    "old_string found "@ + decimal(occurrences)
        + " times in the file. Either:\n1. Provide more context to make it unique, or\n2. Set replace_all: true to replace all occurrences"@
}

/// The file with a text replaced: one occurrence must be the only one, unless all are to be
/// replaced.
pub open spec fn planned(
    content: Seq<char>,
    old_string: Seq<char>,
    new_string: Seq<char>,
    replace_all: bool,
    file_path: Seq<char>,
) -> Result<StringEditView, Seq<char>> {
    let occurrences = match_count(content, old_string);
    if occurrences == 0 {
        Err(not_found_message(content, old_string, file_path))
    } else if occurrences > 1 && !replace_all {
        Err(ambiguous_message(occurrences))
    } else {
        let start_line = line_of(content, old_string);
        let added = text_lines(new_string).len();
        Ok(
            StringEditView {
                content: if replace_all {
                    all_replaced(content, old_string, new_string)
                } else {
                    first_replaced(content, old_string, new_string)
                },
                occurrences,
                start_line,
                end_line: if added == 0 {
                    start_line
                } else {
                    (start_line + added - 1) as nat
                },
            },
        )
    }
}

/// Replace a text in the contents of a file.
pub fn plan_string_edit(
    content: &str,
    old_string: &str,
    new_string: &str,
    replace_all: bool,
    file_path: &str,
) -> (res: Result<StringEdit, EditError>)
    requires
        content@.len() + new_string@.len() < usize::MAX,
    ensures
        ({
            let expected = planned(content@, old_string@, new_string@, replace_all, file_path@);
            match res {
                Ok(edit) => expected == Ok::<StringEditView, Seq<char>>(edit@),
                Err(e) => expected == Err::<StringEditView, Seq<char>>(e@),
            }
        }),
{
    let text = chars_of(content);
    let pattern = chars_of(old_string);
    let by = chars_of(new_string);
    let occurrences = count_matches(text.as_slice(), pattern.as_slice());
    if occurrences == 0 {
        return Err(try_flexible_match(content, old_string, file_path));
    }
    if occurrences > 1 && !replace_all {
        let mut message = "old_string found ".to_owned();
        push_number(&mut message, occurrences);
        message.append(
            " times in the file. Either:\n1. Provide more context to make it unique, or\n2. Set replace_all: true to replace all occurrences",
        );
        return Err(EditError::Message(message));
    }
    let start_line = find_line_number(content, old_string);
    let added = split_text_lines(new_string);
    proof {
        assert(strs(added@).len() == added@.len());
        lemma_line_of(content@, old_string@);
        lemma_few_lines(new_string@);
    }
    let end_line = if added.len() == 0 {
        start_line
    } else {
        start_line + (added.len() - 1)
    };
    let content = if replace_all {
        replace_all_matches(text.as_slice(), pattern.as_slice(), by.as_slice())
    } else {
        replace_first(text.as_slice(), pattern.as_slice(), by.as_slice())
    };
    Ok(StringEdit { content, occurrences, start_line, end_line })
}

proof fn lemma_few_lines(text: Seq<char>)
    ensures
        text_lines(text).len() <= text.len(),
{
    lemma_lines_nonempty(text);
    lemma_lines_len(text);
}

proof fn lemma_line_of(content: Seq<char>, substring: Seq<char>)
    ensures
        1 <= line_of(content, substring) <= content.len() + 1,
{
    lemma_first_match(content, substring);
    if let Some(i) = first_match(content, substring) {
        lemma_lines_nonempty(content.take(i as int));
        lemma_lines_len(content.take(i as int));
    }
}

/// What is reported of a replacement.
pub struct EditReport {
    pub body: String,
    pub summary: String,
    pub detail: Option<String>,
}

#[verifier::ext_equal]
pub struct ReportView {
    pub body: Seq<char>,
    pub summary: Seq<char>,
    pub detail: Option<Seq<char>>,
}

impl View for EditReport {
    type V = ReportView;

    open spec fn view(&self) -> ReportView {
        ReportView { body: self.body@, summary: self.summary@, detail: opt_text(self.detail) }
    }
}

/// The report of a replacement whose diff is `diff`.
pub open spec fn reported(file_path: Seq<char>, edit: StringEditView, diff: Seq<char>) -> ReportView {
    let padding = CONTEXT_LINES as nat;
    let lines = text_lines(edit.content);
    let start = context_start(edit.start_line, padding);
    let end = context_end(edit.end_line, padding, lines.len());
    ReportView {
        body: "Edited "@ + file_path + ": replaced "@ + decimal(edit.occurrences)
            + " occurrence(s)\n"@ + diff + "\n\nContext after edit (lines "@ + decimal(start + 1)
            + "-"@ + decimal(end) + "):\n"@ + join_lines(context_rows(lines, start, end)),
        summary: "edited lines "@ + decimal(edit.start_line) + "-"@ + decimal(edit.end_line) + " ("@
            + decimal(edit.occurrences) + " occurrence"@ + (if edit.occurrences == 1 {
            ""@
        } else {
            "s"@
        }) + ")"@,
        detail: touch_preview(diff),
    }
}

/// Report a replacement.
pub fn report_string_edit(file_path: &str, edit: &StringEdit, diff: &str) -> (r: EditReport)
    requires
        edit.end_line + CONTEXT_LINES <= usize::MAX,
        context_start(edit@.start_line, CONTEXT_LINES as nat) <= context_end(
            edit@.end_line,
            CONTEXT_LINES as nat,
            text_lines(edit@.content).len(),
        ),
    ensures
        r@ == reported(file_path@, edit@, diff@),
{
    let (first, last, context) = extract_context(
        edit.content.as_str(),
        edit.start_line,
        edit.end_line,
        CONTEXT_LINES,
    );
    let mut body = "Edited ".to_owned();
    body.append(file_path);
    body.append(": replaced ");
    push_number(&mut body, edit.occurrences);
    body.append(" occurrence(s)\n");
    body.append(diff);
    body.append("\n\nContext after edit (lines ");
    push_decimal(&mut body, first);
    body.append("-");
    push_decimal(&mut body, last);
    body.append("):\n");
    body.append(context.as_str());
    let mut summary = "edited lines ".to_owned();
    push_decimal(&mut summary, edit.start_line);
    summary.append("-");
    push_decimal(&mut summary, edit.end_line);
    summary.append(" (");
    push_number(&mut summary, edit.occurrences);
    summary.append(" occurrence");
    if edit.occurrences == 1 {
        summary.append("");
    } else {
        summary.append("s");
    }
    summary.append(")");
    EditReport { body, summary, detail: build_file_touch_preview(diff) }
}

proof fn lemma_more_lines(a: Seq<char>, b: Seq<char>)
    ensures
        lines_of(a + b).len() == lines_of(a).len() + lines_of(b).len() - 1,
    decreases a.len(),
{
    let k = CharClass::InLine;
    let n = leading(a, k);
    lemma_leading(a, k);
    lemma_lines_nonempty(b);
    if n < a.len() {
        let s = a + b;
        assert forall|i: int| 0 <= i < n implies class_has(k, #[trigger] s[i]) by {
            assert(s[i] == a[i]);
        }
        lemma_leading_is(s, k, n);
        let rest = a.skip(n as int + 1);
        assert(s.skip(n as int + 1) =~= rest + b);
        lemma_more_lines(rest, b);
    } else {
        let m = leading(b, k);
        lemma_leading(b, k);
        let s = a + b;
        assert forall|i: int| 0 <= i < n + m implies class_has(k, #[trigger] s[i]) by {
            if i < n {
                assert(s[i] == a[i]);
            } else {
                assert(s[i] == b[i - n]);
            }
        }
        if m < b.len() {
            assert(s[(n + m) as int] == b[m as int]);
        }
        lemma_leading_is(s, k, n + m);
        if m < b.len() {
            assert(s.skip((n + m) as int + 1) =~= b.skip(m as int + 1));
        }
    }
}

/// The lines around a replacement can be shown.
proof fn lemma_context_in_range(
    content: Seq<char>,
    old_string: Seq<char>,
    new_string: Seq<char>,
    replace_all: bool,
    file_path: Seq<char>,
)
    ensures
        planned(content, old_string, new_string, replace_all, file_path) matches Ok(edit)
            ==> context_start(edit.start_line, CONTEXT_LINES as nat) <= context_end(
            edit.end_line,
            CONTEXT_LINES as nat,
            text_lines(edit.content).len(),
        ) && edit.end_line <= content.len() + new_string.len() + 1,
{
    if let Ok(edit) = planned(content, old_string, new_string, replace_all, file_path) {
        lemma_first_match(content, old_string);
        lemma_line_of(content, old_string);
        lemma_few_lines(new_string);
        assert(content.skip(0) =~= content);
        assert(first_match(content, old_string) is Some);
        let i = first_match(content, old_string)->0;
        let head = content.take(i as int);
        let tail = edit.content.skip(i as int);
        if old_string.len() == 0 && replace_all {
            assert(old_string.is_prefix_of(content));
            assert(i == 0);
            assert(edit.content =~= head + edit.content);
            lemma_more_lines(head, edit.content);
        } else {
            assert(edit.content =~= head + tail);
            lemma_more_lines(head, tail);
        }
        lemma_lines_nonempty(edit.content);
        lemma_lines_nonempty(tail);
    }
}

/// Replace a text in the contents of a file, and report it.
pub fn run_string_edit(
    content: &str,
    old_string: &str,
    new_string: &str,
    replace_all: bool,
    file_path: &str,
) -> (res: Result<(StringEdit, EditReport), EditError>)
    requires
        content@.len() + new_string@.len() + 1 + CONTEXT_LINES <= usize::MAX,
        planned(content@, old_string@, new_string@, replace_all, file_path@) is Ok ==> diffable(
            old_string@,
            new_string@,
        ),
    ensures
        res is Ok ==> leads_between(
            text_changes(old_string@, new_string@),
            old_string@,
            new_string@,
        ),
        ({
            let expected = planned(content@, old_string@, new_string@, replace_all, file_path@);
            match res {
                Ok((edit, report)) => expected == Ok::<StringEditView, Seq<char>>(edit@)
                    && report@ == reported(
                    file_path@,
                    edit@,
                    diff_text(text_changes(old_string@, new_string@), edit@.start_line),
                ),
                Err(e) => expected == Err::<StringEditView, Seq<char>>(e@),
            }
        }),
{
    proof {
        lemma_context_in_range(content@, old_string@, new_string@, replace_all, file_path@);
    }
    match plan_string_edit(content, old_string, new_string, replace_all, file_path) {
        Err(e) => Err(e),
        Ok(edit) => {
            let diff = generate_diff(old_string, new_string, edit.start_line);
            let report = report_string_edit(file_path, &edit, diff.as_str());
            Ok((edit, report))
        },
    }
}

// ---------------------------------------------------------------------------------------------
// Results of a patch

/// A patch must have a section.
pub fn check_patch(patch: &Patch) -> (res: Result<(), EditError>)
    ensures
        match res {
            Ok(_) => patch.sections@.len() > 0,
            Err(e) => patch.sections@.len() == 0 && e@
                == "hashline input needs at least one [PATH#TAG] section"@,
        },
{
    if patch.sections.len() == 0 {
        return Err(
            EditError::Message(
                "hashline input needs at least one [PATH#TAG] section".to_owned(),
            ),
        );
    }
    Ok(())
}

pub open spec fn result_views(v: Seq<SectionResult>) -> Seq<ResultView> {
    Seq::new(v.len(), |i: int| v[i]@)
}

pub open spec fn resolution_rows(resolutions: Seq<BlockResolution>) -> Seq<char>
    decreases resolutions.len(),
{
    if resolutions.len() == 0 {
        seq![]
    } else {
        let r = resolutions.last();
        resolution_rows(resolutions.drop_last()) + "PUT "@ + decimal(r.line as nat)
            + "*: \u{2192} resolved lines "@ + decimal(r.start as nat) + "-"@ + decimal(
            r.end as nat,
        ) + "\n"@
    }
}

pub open spec fn warning_rows(warnings: Seq<Seq<char>>) -> Seq<char>
    decreases warnings.len(),
{
    if warnings.len() == 0 {
        seq![]
    } else {
        warning_rows(warnings.drop_last()) + warnings.last() + "\n"@
    }
}

/// A preview, ended by a line feed where it is not empty.
pub open spec fn ended(preview: Seq<char>) -> Seq<char> {
    if preview.len() == 0 || ends_with_char(preview, '\n') {
        preview
    } else {
        preview + "\n"@
    }
}

/// What is said of an update whose diff is `preview`.
pub open spec fn update_rows(r: ResultView, preview: Seq<char>) -> Seq<char> {
    (match r.move_dest {
        Some(dest) => "moved to "@ + dest + "\n"@,
        None => seq![],
    }) + resolution_rows(r.block_resolutions) + (match r.first_changed_line {
        Some(line) => "first changed line "@ + decimal(line) + "\n"@,
        None => seq![],
    }) + ended(preview)
}

/// What is said of a section: its new header, what happened, and the warnings.
pub open spec fn section_rows(r: ResultView, preview: Seq<char>) -> Seq<char> {
    r.header + "\n"@ + (if r.op == "delete"@ {
        "deleted file\n"@
    } else if r.op == "noop"@ {
        "no changes\n"@
    } else {
        update_rows(r, preview)
    }) + (if r.warnings.len() > 0 {
        "Warnings:\n"@ + warning_rows(r.warnings)
    } else {
        seq![]
    })
}

/// Whether the texts before and after a section can be compared.
pub open spec fn is_compared(r: ResultView) -> bool {
    can_diff_span(r.before, r.after) && r.before.len() < usize::MAX
}

/// The diff that is shown of a section. There is none of texts that cannot be compared.
pub open spec fn preview_of(r: ResultView) -> Seq<char> {
    if is_compared(r) {
        changed_span_diff(r.before, r.after)
    } else {
        seq![]
    }
}

/// What is said of all sections, with an empty line between each and the next.
pub open spec fn results_text(results: Seq<ResultView>, previews: Seq<Seq<char>>) -> Seq<char>
    decreases results.len(),
{
    if results.len() == 0 {
        seq![]
    } else {
        let n = results.len() - 1;
        let front = results_text(results.drop_last(), previews);
        (if front.len() > 0 {
            front + "\n"@
        } else {
            front
        }) + section_rows(results[n], previews[n])
    }
}

pub open spec fn previews_of(results: Seq<ResultView>) -> Seq<Seq<char>> {
    Seq::new(results.len(), |i: int| preview_of(results[i]))
}

fn push_resolutions(out: &mut String, resolutions: &[BlockResolution])
    ensures
        final(out)@ == old(out)@ + resolution_rows(resolutions@),
{
    let ghost before = out@;
    let mut i: usize = 0;
    proof {
        assert(resolutions@.take(0) =~= seq![]);
        assert(before + Seq::<char>::empty() =~= before);
    }
    while i < resolutions.len()
        invariant
            i <= resolutions.len(),
            out@ == before + resolution_rows(resolutions@.take(i as int)),
        decreases resolutions.len() - i,
    {
        let r = resolutions[i];
        proof {
            assert(resolutions@.take(i + 1).drop_last() =~= resolutions@.take(i as int));
            assert(resolutions@.take(i + 1).last() == r);
        }
        out.append("PUT ");
        push_decimal(out, r.line);
        out.append("*: \u{2192} resolved lines ");
        push_decimal(out, r.start);
        out.append("-");
        push_decimal(out, r.end);
        out.append("\n");
        proof {
            assert(out@ =~= before + resolution_rows(resolutions@.take(i + 1)));
        }
        i += 1;
    }
    proof {
        assert(resolutions@.take(i as int) =~= resolutions@);
    }
}

fn push_warnings(out: &mut String, warnings: &[String])
    ensures
        final(out)@ == old(out)@ + (if warnings@.len() > 0 {
            "Warnings:\n"@ + warning_rows(strs(warnings@))
        } else {
            seq![]
        }),
{
    if warnings.len() == 0 {
        proof {
            assert(out@ + Seq::<char>::empty() =~= out@);
        }
        return;
    }
    let ghost before = out@;
    let ghost all = strs(warnings@);
    out.append("Warnings:\n");
    let mut i: usize = 0;
    proof {
        assert(all.take(0) =~= seq![]);
        assert(out@ =~= before + ("Warnings:\n"@ + warning_rows(all.take(0))));
    }
    while i < warnings.len()
        invariant
            i <= warnings.len(),
            all == strs(warnings@),
            out@ == before + ("Warnings:\n"@ + warning_rows(all.take(i as int))),
        decreases warnings.len() - i,
    {
        proof {
            assert(all.take(i + 1).drop_last() =~= all.take(i as int));
            assert(all.take(i + 1).last() == warnings@[i as int]@);
        }
        out.append(warnings[i].as_str());
        out.append("\n");
        proof {
            assert(out@ =~= before + ("Warnings:\n"@ + warning_rows(all.take(i + 1))));
        }
        i += 1;
    }
    proof {
        assert(all.take(i as int) =~= all);
    }
}

fn update_text(r: &SectionResult, preview: &str) -> (out: String)
    ensures
        out@ == update_rows(r@, preview@),
{
    let mut out = String::new();
    if let Some(dest) = &r.move_dest {
        out.append("moved to ");
        out.append(dest.as_str());
        out.append("\n");
    }
    let ghost moved = out@;
    proof {
        assert(moved =~= match r@.move_dest {
            Some(dest) => "moved to "@ + dest + "\n"@,
            None => seq![],
        });
    }
    push_resolutions(&mut out, r.block_resolutions.as_slice());
    let ghost resolved = out@;
    if let Some(line) = r.first_changed_line {
        out.append("first changed line ");
        push_decimal(&mut out, line);
        out.append("\n");
    }
    let ghost changed = out@;
    proof {
        assert(changed =~= resolved + match r@.first_changed_line {
            Some(line) => "first changed line "@ + decimal(line) + "\n"@,
            None => seq![],
        });
    }
    let chars = chars_of(preview);
    out.append(preview);
    if chars.len() > 0 && !last_is(chars.as_slice(), '\n') {
        out.append("\n");
    }
    proof {
        assert(out@ =~= changed + ended(preview@));
    }
    out
}

/// Describe a section whose diff is `preview`.
pub fn render_section(r: &SectionResult, preview: &str) -> (out: String)
    ensures
        out@ == section_rows(r@, preview@),
{
    let mut out = r.header.clone();
    out.append("\n");
    if same_text(r.op, "delete") {
        out.append("deleted file\n");
    } else if same_text(r.op, "noop") {
        out.append("no changes\n");
    } else {
        out.append(update_text(r, preview).as_str());
    }
    push_warnings(&mut out, r.warnings.as_slice());
    proof {
        assert(strs(r.warnings@).len() == r.warnings@.len());
    }
    out
}

/// Describe sections whose diffs are `previews`.
pub fn render_sections(results: &[SectionResult], previews: &[String]) -> (out: String)
    requires
        results@.len() == previews@.len(),
    ensures
        out@ == results_text(result_views(results@), strs(previews@)),
{
    let ghost all = result_views(results@);
    let ghost shown = strs(previews@);
    let mut out = String::new();
    let mut is_empty = true;
    let mut i: usize = 0;
    proof {
        assert(all.take(0) =~= seq![]);
    }
    while i < results.len()
        invariant
            i <= results.len(),
            results@.len() == previews@.len(),
            all == result_views(results@),
            shown == strs(previews@),
            out@ == results_text(all.take(i as int), shown),
            is_empty == (out@.len() == 0),
        decreases results.len() - i,
    {
        proof {
            assert(all.take(i + 1).drop_last() =~= all.take(i as int));
            assert(all.take(i + 1)[i as int] == results@[i as int]@);
            assert(shown[i as int] == previews@[i as int]@);
            reveal_strlit("\n");
        }
        if !is_empty {
            out.append("\n");
        }
        let ghost before = out@;
        out.append(render_section(&results[i], previews[i].as_str()).as_str());
        proof {
            assert(out@.len() > 0);
        }
        is_empty = false;
        i += 1;
    }
    proof {
        assert(all.take(i as int) =~= all);
    }
    out
}

fn preview_text(r: &SectionResult) -> (out: String)
    ensures
        out@ == preview_of(r@),
        is_compared(r@) ==> shows_span(r@.before, r@.after),
{
    let before = r.before.as_str();
    let after = r.after.as_str();
    if chars_of(before).len() == usize::MAX {
        return String::new();
    }
    let (old, new, _) = changed_span(before, after);
    if can_diff(old.as_str(), new.as_str()) {
        generate_changed_span_diff(before, after)
    } else {
        String::new()
    }
}

/// Describe what a patch did.
pub fn render_results(results: &[SectionResult]) -> (out: String)
    ensures
        out@ == results_text(result_views(results@), previews_of(result_views(results@))),
        forall|i: int|
            0 <= i < results@.len() && is_compared((#[trigger] results@[i])@) ==> shows_span(
                results@[i]@.before,
                results@[i]@.after,
            ),
{
    let ghost all = result_views(results@);
    let mut previews: Vec<String> = Vec::new();
    let mut i: usize = 0;
    while i < results.len()
        invariant
            i <= results.len(),
            all == result_views(results@),
            previews@.len() == i,
            forall|k: int| 0 <= k < i ==> (#[trigger] previews@[k])@ == preview_of(all[k]),
            forall|k: int|
                0 <= k < i && is_compared((#[trigger] results@[k])@) ==> shows_span(
                    results@[k]@.before,
                    results@[k]@.after,
                ),
        decreases results.len() - i,
    {
        proof {
            assert(all[i as int] == results@[i as int]@);
        }
        previews.push(preview_text(&results[i]));
        i += 1;
    }
    proof {
        assert(strs(previews@) =~= previews_of(all));
    }
    render_sections(results, previews.as_slice())
}

/// The path that a section left its file at, and a short notice of what happened.
pub fn touched_path(r: &SectionResult) -> (out: (String, String))
    ensures
        ({
            let dest = match r@.move_dest {
                Some(dest) => dest,
                None => r@.path,
            };
            out.0@ == dest && out.1@ == r@.op + " "@ + dest
        }),
{
    let dest = match &r.move_dest {
        Some(dest) => dest.clone(),
        None => r.path.clone(),
    };
    let mut summary = r.op.to_owned();
    summary.append(" ");
    summary.append(dest.as_str());
    (dest, summary)
}

} // verus!
