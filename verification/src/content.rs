//! The prompt for the patch language, and what a model copies into the content of a write.

use crate::format::{
    header_of, header_text, law_header_round_trip, numbered, numbered_lines, parse_hashline_header,
};
use crate::text::{
    all_of, chars_of, class_has, count_leading, decimal, is_white, join_lines, join_text,
    law_decimal_round_trip, law_join_of_lines, law_lines_of_join, leading, lemma_join_cons,
    lemma_leading_is, lemma_lines_in_line, lemma_lines_nonempty, lemma_trailing, lines_of, newline,
    skip, split_lines, string_of, strs, trimmed, CharClass,
};
use vstd::prelude::*;

verus! {

pub const HASHLINE_TOOL_PROMPT: &'static str =
    "Line-anchored patch language. Section `[PATH#TAG]`; TAG is the 4-hex snapshot from the latest read/write/edit. New files use write.\n\nPUT N.=M: replace original inclusive lines N-M with +body rows.\nPUT N*: replace the syntactic block beginning on line N.\nPUT <N: insert before line N (PUT <1: = file head).\nPUT >N: insert after line N. PUT >$: file tail.\nCUT N.=M / CUT N*: delete and capture. REM deletes the file. MV DEST moves it.\nBody rows are final content and start with +. Markdown bullet: +- item. Do not paste N:text read lines as body.\n\nNumbers and TAG are from the latest read. Each edit remints TAG. Stale tag: stop and re-read.\n";

// ---------------------------------------------------------------------------------------------
// Model

/// `N:` and anything after it.
pub open spec fn is_numbered_line(line: Seq<char>) -> bool {
    let n = leading(line, CharClass::Digit);
    0 < n < line.len() && line[n as int] == ':'
}

/// A line without its `N:`.
pub open spec fn without_line_number(line: Seq<char>) -> Seq<char> {
    if is_numbered_line(line) {
        line.skip(leading(line, CharClass::Digit) as int + 1)
    } else {
        line
    }
}

/// Every line that is not empty is numbered, and there is such a line.
pub open spec fn all_numbered(lines: Seq<Seq<char>>) -> bool {
    &&& forall|i: int|
        0 <= i < lines.len() && (#[trigger] lines[i]).len() > 0 ==> is_numbered_line(lines[i])
    &&& exists|i: int| 0 <= i < lines.len() && (#[trigger] lines[i]).len() > 0
}

/// Whether a line is a header with a tag, `[PATH#TAG]`. A path in brackets alone is none.
pub open spec fn is_tagged_header(line: Seq<char>) -> bool {
    header_of(line) matches Some((_, Some(_)))
}

/// The lines after a copied header.
pub open spec fn lines_after_header(content: Seq<char>) -> Seq<Seq<char>> {
    let lines = lines_of(content);
    if lines.len() > 0 && is_tagged_header(lines[0]) {
        lines.skip(1)
    } else {
        lines
    }
}

/// What a write stores: without a tagged header on the first line, and without line numbers where
/// every line has one.
pub open spec fn written_content(content: Seq<char>) -> Seq<char> {
    let lines = lines_after_header(content);
    if all_numbered(lines) {
        join_lines(Seq::new(lines.len(), |i: int| without_line_number(lines[i])))
    } else {
        join_lines(lines)
    }
}

// ---------------------------------------------------------------------------------------------
// Executable functions

fn looks_like_numbered_line(line: &str) -> (yes: bool)
    ensures
        yes == is_numbered_line(line@),
{
    let chars = chars_of(line);
    let n = count_leading(chars.as_slice(), CharClass::Digit);
    0 < n && n < chars.len() && chars[n] == ':'
}

fn strip_numbered_prefix(line: &str) -> (out: String)
    ensures
        out@ == without_line_number(line@),
{
    let chars = chars_of(line);
    let n = count_leading(chars.as_slice(), CharClass::Digit);
    if 0 < n && n < chars.len() && chars[n] == ':' {
        string_of(skip(chars.as_slice(), n + 1))
    } else {
        line.to_owned()
    }
}

fn numbered_throughout(lines: &[String]) -> (yes: bool)
    ensures
        yes == all_numbered(strs(lines@)),
{
    let ghost texts = strs(lines@);
    let mut saw = false;
    let mut i: usize = 0;
    while i < lines.len()
        invariant
            i <= lines.len(),
            texts == strs(lines@),
            forall|k: int|
                0 <= k < i && (#[trigger] texts[k]).len() > 0 ==> is_numbered_line(texts[k]),
            saw == exists|k: int| 0 <= k < i && (#[trigger] texts[k]).len() > 0,
        decreases lines.len() - i,
    {
        proof {
            assert(texts[i as int] == lines@[i as int]@);
        }
        if chars_of(lines[i].as_str()).len() > 0 {
            saw = true;
            if !looks_like_numbered_line(lines[i].as_str()) {
                return false;
            }
        }
        i += 1;
    }
    saw
}

/// Strip copied `[path#TAG]` headers and `N:` prefixes from write content.
pub fn strip_write_content(content: &str) -> (out: String)
    ensures
        out@ == written_content(content@),
{
    let mut lines = split_lines(chars_of(content).as_slice());
    let ghost all = strs(lines@);
    proof {
        assert(all[0] == lines@[0]@);
    }
    if let Some((_, Some(_))) = parse_hashline_header(lines[0].as_str()) {
        lines.remove(0);
        proof {
            assert(strs(lines@) =~= all.skip(1));
        }
    }
    let ghost kept = strs(lines@);
    if !numbered_throughout(lines.as_slice()) {
        return join_text(lines.as_slice());
    }
    let mut out: Vec<String> = Vec::new();
    let mut i: usize = 0;
    while i < lines.len()
        invariant
            i <= lines.len(),
            kept == strs(lines@),
            out@.len() == i,
            forall|k: int| 0 <= k < i ==> (#[trigger] out@[k])@ == without_line_number(kept[k]),
        decreases lines.len() - i,
    {
        proof {
            assert(kept[i as int] == lines@[i as int]@);
        }
        out.push(strip_numbered_prefix(lines[i].as_str()));
        i += 1;
    }
    proof {
        assert(strs(out@) =~= Seq::new(kept.len(), |i: int| without_line_number(kept[i])));
    }
    join_text(out.as_slice())
}

// ---------------------------------------------------------------------------------------------
// Laws

proof fn lemma_numbered(n: nat, line: Seq<char>)
    requires
        all_of(line, CharClass::InLine),
    ensures
        all_of(numbered(n, line), CharClass::InLine),
        is_numbered_line(numbered(n, line)),
        without_line_number(numbered(n, line)) == line,
        header_of(numbered(n, line)) is None,
{
    law_decimal_round_trip(n);
    let d = decimal(n);
    let s = numbered(n, line);
    assert forall|i: int| 0 <= i < d.len() implies class_has(CharClass::Digit, #[trigger] s[i]) by {
        assert(s[i] == d[i]);
        assert(class_has(CharClass::Digit, d[i]));
    }
    lemma_leading_is(s, CharClass::Digit, d.len());
    assert(s.skip(d.len() as int + 1) =~= line);
    assert forall|i: int| 0 <= i < s.len() implies
        class_has(CharClass::InLine, #[trigger] s[i]) by {
        if i > d.len() {
            assert(s[i] == line[i - d.len() - 1]);
            assert(class_has(CharClass::InLine, line[i - d.len() - 1]));
        } else if i < d.len() {
            assert(class_has(CharClass::Digit, s[i]));
        }
    }
    assert(class_has(CharClass::Digit, s[0]));
    lemma_leading_is(s, CharClass::White, 0);
    assert(s.skip(0) =~= s);
    lemma_trailing(s, CharClass::White);
    if trimmed(s).len() > 0 {
        assert(trimmed(s)[0] == s[0]);
    }
}

proof fn lemma_numbered_lines(text: Seq<char>, start: nat)
    ensures
        ({
            let rows = numbered_lines(lines_of(text), start);
            &&& rows.len() > 0
            &&& forall|i: int|
                0 <= i < rows.len() ==> all_of(#[trigger] rows[i], CharClass::InLine)
            &&& all_numbered(rows)
            &&& header_of(rows[0]) is None
            &&& join_lines(Seq::new(rows.len(), |i: int| without_line_number(rows[i]))) == text
        }),
{
    let lines = lines_of(text);
    let rows = numbered_lines(lines, start);
    lemma_lines_nonempty(text);
    lemma_lines_in_line(text);
    assert forall|i: int| 0 <= i < rows.len() implies all_of(#[trigger] rows[i], CharClass::InLine)
        && is_numbered_line(rows[i]) && without_line_number(rows[i]) == lines[i] && header_of(
        rows[i],
    ) is None by {
        assert(all_of(lines[i], CharClass::InLine));
        lemma_numbered((start + i) as nat, lines[i]);
    }
    assert(rows[0].len() > 0);
    assert(Seq::new(rows.len(), |i: int| without_line_number(rows[i])) =~= lines);
    law_join_of_lines(text);
}

/// Writing the numbered lines of a text back stores the text.
pub proof fn law_numbered_text_is_restored(text: Seq<char>, start: nat)
    ensures
        written_content(join_lines(numbered_lines(lines_of(text), start))) == text,
{
    lemma_numbered_lines(text, start);
    law_lines_of_join(numbered_lines(lines_of(text), start));
}

/// Writing a whole read back, its header and its numbered lines, stores the text that was read.
pub proof fn law_copied_read_is_restored(
    path: Seq<char>,
    tag: Seq<char>,
    text: Seq<char>,
    start: nat,
)
    requires
        path.len() > 0,
        !is_white(path[0]),
        !is_white(path.last()),
        all_of(path, CharClass::InLine),
        tag.len() == 4,
        all_of(tag, CharClass::Hex),
    ensures
        written_content(
            header_text(path, tag) + newline() + join_lines(
                numbered_lines(lines_of(text), start),
            ),
        ) == text,
{
    let header = header_text(path, tag);
    let rows = numbered_lines(lines_of(text), start);
    lemma_numbered_lines(text, start);
    law_header_round_trip(path, tag);
    assert forall|i: int| 0 <= i < header.len() implies class_has(
        CharClass::InLine,
        #[trigger] header[i],
    ) by {
        if 0 < i <= path.len() {
            assert(header[i] == path[i - 1]);
            assert(class_has(CharClass::InLine, path[i - 1]));
        } else if path.len() + 1 < i < header.len() - 1 {
            assert(header[i] == tag[i - path.len() - 2]);
            assert(class_has(CharClass::Hex, tag[i - path.len() - 2]));
        }
    }
    let all = seq![header] + rows;
    assert forall|i: int| 0 <= i < all.len() implies
        all_of(#[trigger] all[i], CharClass::InLine) by {
        if i > 0 {
            assert(all[i] == rows[i - 1]);
        }
    }
    lemma_join_cons(header, rows, newline());
    law_lines_of_join(all);
    assert(all.skip(1) =~= rows);
}

/// Content whose first line is no header with a tag, and of which some line has no number, is
/// stored as it is.
pub proof fn law_other_content_is_kept(content: Seq<char>)
    requires
        !is_tagged_header(lines_of(content)[0]),
        !all_numbered(lines_of(content)),
    ensures
        written_content(content) == content,
{
    law_join_of_lines(content);
}

} // verus!
