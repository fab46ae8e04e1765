//! Expand `N*` block ops using brace, indent, or markdown structure.

use crate::clipboard::cuts_run_forward;
use crate::text::{
    at_line, blank, chars_of, count_leading, decimal, ends_with, ends_with_char, is_blank, last_is,
    leading, lemma_lines_len, lemma_total_len_take, line_message, lines_of, push_decimal, skip,
    split_lines, strs, total_len, trim_end, trim_start, trimmed_end, trimmed_start, uppercase,
    uppercase_string, CharClass,
};
use crate::types::{
    copy_opt_string, deletes, edit_views, inserts, opt_text, push_deletes, push_inserts, Anchor,
    BlockMode, BlockResolution, BlockSpan, Cursor, Edit, EditView, ParsedRange, PasteTarget,
};
use vstd::prelude::*;

verus! {

#[derive(Debug)]
pub enum BlockError {
    Message(String),
}

impl View for BlockError {
    type V = Seq<char>;

    open spec fn view(&self) -> Seq<char> {
        match self {
            BlockError::Message(m) => m@,
        }
    }
}

impl BlockError {
    pub fn message(&self) -> (m: String)
        ensures
            m@ == self@,
    {
        match self {
            BlockError::Message(m) => m.clone(),
        }
    }
}

// ---------------------------------------------------------------------------------------------
// Model: where a block ends

/// Files whose headings open sections.
pub open spec fn is_markdown_path(path: Seq<char>) -> bool {
    let p = uppercase(path);
    ".MD"@.is_suffix_of(p) || ".MDX"@.is_suffix_of(p) || ".MARKDOWN"@.is_suffix_of(p)
}

/// The level of a heading: one to six number signs and a space.
pub open spec fn heading(line: Seq<char>) -> Option<nat> {
    let t = trimmed_start(line, CharClass::White);
    let level = leading(t, CharClass::Hash);
    if 1 <= level <= 6 && level < t.len() && t[level as int] == ' ' {
        Some(level)
    } else {
        None
    }
}

/// How many lines stand before the first heading, from line `from` on, that is not below `level`.
pub open spec fn section_end(lines: Seq<Seq<char>>, from: nat, level: nat) -> nat
    decreases lines.len() - from,
{
    if from >= lines.len() {
        from
    } else {
        match heading(lines[from as int]) {
            Some(next) => if next <= level {
                from
            } else {
                section_end(lines, from + 1, level)
            },
            None => section_end(lines, from + 1, level),
        }
    }
}

/// A span from `line` to `end`, provided that it has more than one line.
pub open spec fn span_to(line: nat, end: nat) -> Option<(nat, nat)> {
    if end == line {
        None
    } else {
        Some((line, end))
    }
}

pub open spec fn markdown_span(lines: Seq<Seq<char>>, line: nat) -> Option<(nat, nat)> {
    match heading(lines[line - 1]) {
        Some(level) => span_to(line, section_end(lines, line, level)),
        None => None,
    }
}

/// Where a reading of a line stands: inside which quotes, whether the last character was an
/// escape, and which characters stood outside quotes.
#[verifier::ext_equal]
pub struct CodeScan {
    pub quote: Option<char>,
    pub escaped: bool,
    pub code: Seq<char>,
}

pub open spec fn is_quote(c: char) -> bool {
    c == '"' || c == '\'' || c == '`'
}

/// One character. A backslash escapes in double quotes and backticks, not in single quotes.
pub open spec fn scan_char(scan: CodeScan, c: char) -> CodeScan {
    match scan.quote {
        Some(q) => if scan.escaped {
            CodeScan { escaped: false, ..scan }
        } else if c == '\\' && q != '\'' {
            CodeScan { escaped: true, ..scan }
        } else if c == q {
            CodeScan { quote: None, ..scan }
        } else {
            scan
        },
        None => if is_quote(c) {
            CodeScan { quote: Some(c), ..scan }
        } else {
            CodeScan { code: scan.code.push(c), ..scan }
        },
    }
}

pub open spec fn scan_line(line: Seq<char>) -> CodeScan
    decreases line.len(),
{
    if line.len() == 0 {
        CodeScan { quote: None, escaped: false, code: seq![] }
    } else {
        scan_char(scan_line(line.drop_last()), line.last())
    }
}

/// The characters of a line outside quotes.
pub open spec fn code_of(line: Seq<char>) -> Seq<char> {
    scan_line(line).code
}

pub open spec fn is_opener(c: char) -> bool {
    c == '{' || c == '(' || c == '['
}

pub open spec fn closer(open: char) -> char {
    if open == '{' {
        '}'
    } else if open == '(' {
        ')'
    } else if open == '[' {
        ']'
    } else {
        open
    }
}

/// How many brackets are open after `code`, where `depth` were before, or that the last one was
/// closed (`None`). A closing bracket counts only where one is open.
pub open spec fn depth_after(code: Seq<char>, depth: nat, open: char) -> Option<nat>
    decreases code.len(),
{
    if code.len() == 0 {
        Some(depth)
    } else if code[0] == open {
        depth_after(code.skip(1), depth + 1, open)
    } else if code[0] == closer(open) && depth == 1 {
        None
    } else if code[0] == closer(open) && depth > 1 {
        depth_after(code.skip(1), (depth - 1) as nat, open)
    } else {
        depth_after(code.skip(1), depth, open)
    }
}

/// The first line, from the one after `from` lines on, in which the last open bracket is closed.
pub open spec fn closing_line(lines: Seq<Seq<char>>, from: nat, depth: nat, open: char) -> Option<
    nat,
>
    decreases lines.len() - from,
{
    if from >= lines.len() {
        None
    } else {
        match depth_after(code_of(lines[from as int]), depth, open) {
            None => Some(from + 1),
            Some(now) => closing_line(lines, from + 1, now, open),
        }
    }
}

/// The line that closes the bracket opened at an index of the line; `None` where no bracket is
/// opened there, where the line itself closes it, and where nothing does.
pub open spec fn bracket_end(lines: Seq<Seq<char>>, line: nat, at: int) -> Option<nat> {
    let code = code_of(lines[line - 1]);
    if is_opener(code[at]) {
        match depth_after(code.skip(at), 0, code[at]) {
            None => None,
            Some(depth) => closing_line(lines, line, depth, code[at]),
        }
    } else {
        None
    }
}

/// The line that closes the first bracket, from an index of the line on, that a later line closes.
pub open spec fn outermost_end(lines: Seq<Seq<char>>, line: nat, from: int) -> Option<nat>
    decreases code_of(lines[line - 1]).len() - from,
{
    if from < 0 || from >= code_of(lines[line - 1]).len() {
        None
    } else if bracket_end(lines, line, from) is Some {
        bracket_end(lines, line, from)
    } else {
        outermost_end(lines, line, from + 1)
    }
}

/// The lines up to the one that closes the outermost bracket that is opened on the line and closed
/// on a later one.
pub open spec fn brace_span(lines: Seq<Seq<char>>, line: nat) -> Option<(nat, nat)> {
    match outermost_end(lines, line, 0) {
        None => None,
        Some(end) => Some((line, end)),
    }
}

/// The width of leading spaces and tabs; a tab is four wide.
pub open spec fn blank_width(pad: Seq<char>) -> nat
    decreases pad.len(),
{
    if pad.len() == 0 {
        0
    } else {
        blank_width(pad.drop_last()) + if pad.last() == '\t' {
            4nat
        } else {
            1
        }
    }
}

pub open spec fn indent(line: Seq<char>) -> nat {
    blank_width(line.take(leading(line, CharClass::Blank) as int))
}

/// How many lines stand before the first line, from line `from` on, that is not blank and not
/// indented further than `base`.
pub open spec fn dedent(lines: Seq<Seq<char>>, from: nat, base: nat) -> nat
    decreases lines.len() - from,
{
    if from >= lines.len() {
        from
    } else if is_blank(lines[from as int]) || indent(lines[from as int]) > base {
        dedent(lines, from + 1, base)
    } else {
        from
    }
}

pub open spec fn indent_span(lines: Seq<Seq<char>>, line: nat) -> Option<(nat, nat)> {
    let opener = trimmed_end(lines[line - 1], CharClass::White);
    if ends_with_char(opener, ':') || ends_with_char(opener, '{') {
        span_to(line, dedent(lines, line, indent(lines[line - 1])))
    } else {
        None
    }
}

/// The first and the last line of the block that opens on `line`: in Markdown the section of a
/// heading; else the lines up to the one that closes the outermost bracket that is opened on the
/// line and closed on a later one; else the lines that are indented further than a line that ends
/// in a colon or a brace.
pub open spec fn block_span(path: Seq<char>, text: Seq<char>, line: nat) -> Option<(nat, nat)> {
    let lines = lines_of(text);
    if line == 0 || line > lines.len() {
        None
    } else if is_markdown_path(path) && markdown_span(lines, line) is Some {
        markdown_span(lines, line)
    } else if brace_span(lines, line) is Some {
        brace_span(lines, line)
    } else {
        indent_span(lines, line)
    }
}

pub open spec fn span_view(span: Option<BlockSpan>) -> Option<(nat, nat)> {
    match span {
        Some(s) => Some((s.start as nat, s.end as nat)),
        None => None,
    }
}

// ---------------------------------------------------------------------------------------------
// Model: edits

#[verifier::ext_equal]
pub struct BlockRun {
    pub resolutions: Seq<BlockResolution>,
    pub warnings: Seq<Seq<char>>,
    /// The edits that stand for those seen so far.
    pub out: Seq<EditView>,
    /// The number of the next edit that stands for a block.
    pub next: nat,
    /// The message that ended the run.
    pub error: Option<Seq<char>>,
}

/// The edits that stand for a block edit on the lines `start` to `end`.
pub open spec fn block_edits(
    mode: BlockMode,
    payloads: Seq<Seq<char>>,
    register: Option<Seq<char>>,
    start: usize,
    end: usize,
    line_num: nat,
    next: nat,
) -> Seq<EditView> {
    let first = Anchor { line: start };
    let last = Anchor { line: end };
    let range = ParsedRange { start: first, end: last };
    match mode {
        BlockMode::Replace => match register {
            Some(name) => seq![
                EditView::Paste {
                    at: PasteTarget::Span { range },
                    register: Some(name),
                    line_num,
                    index: next,
                    block_start: None,
                },
            ],
            None => inserts(
                payloads,
                Cursor::BeforeAnchor { anchor: first },
                line_num,
                next,
                true,
                None,
            ) + deletes(start, end, line_num, next + payloads.len()),
        },
        BlockMode::Cut => seq![EditView::Cut { range, register, line_num, index: next }] + deletes(
            start,
            end,
            line_num,
            next + 1,
        ),
        BlockMode::InsertAfter => inserts(
            payloads,
            Cursor::AfterAnchor { anchor: last },
            line_num,
            next,
            false,
            Some(start),
        ),
        BlockMode::PasteAfter => seq![
            EditView::Paste {
                at: PasteTarget::Gap { cursor: Cursor::AfterAnchor { anchor: last } },
                register,
                line_num,
                index: next,
                block_start: Some(start),
            },
        ],
    }
}

/// The edits that stand for a block edit after a line that opens no block.
pub open spec fn lowered_edits(
    mode: BlockMode,
    payloads: Seq<Seq<char>>,
    register: Option<Seq<char>>,
    anchor: Anchor,
    line_num: nat,
    next: nat,
) -> Seq<EditView> {
    let cursor = Cursor::AfterAnchor { anchor };
    match mode {
        BlockMode::InsertAfter => inserts(payloads, cursor, line_num, next, false, None),
        BlockMode::PasteAfter => seq![
            EditView::Paste {
                at: PasteTarget::Gap { cursor },
                register,
                line_num,
                index: next,
                block_start: None,
            },
        ],
        _ => seq![],
    }
}

pub open spec fn lowered_warning(line: nat) -> Seq<char> {
    "PUT >"@ + decimal(line) + "*: could not resolve block; lowered to PUT >"@ + decimal(line)
}

pub open spec fn unresolved(line_num: nat, line: nat) -> Seq<char> {
    at_line(line_num) + "could not resolve block opening at "@ + decimal(line)
}

/// One edit: a block edit becomes edits on the lines of its block, any other stands for itself.
pub open spec fn block_step(
    run: BlockRun,
    edit: EditView,
    text: Seq<char>,
    path: Seq<char>,
    throw: bool,
) -> BlockRun {
    if run.error is Some {
        run
    } else {
        match edit {
            EditView::Block { anchor, payloads, mode, register, line_num, .. } => {
                match block_span(path, text, anchor.line as nat) {
                    Some((start, end)) => {
                        let more = block_edits(
                            mode,
                            payloads,
                            register,
                            start as usize,
                            end as usize,
                            line_num,
                            run.next,
                        );
                        BlockRun {
                            resolutions: run.resolutions.push(
                                BlockResolution {
                                    line: anchor.line,
                                    start: start as usize,
                                    end: end as usize,
                                },
                            ),
                            out: run.out + more,
                            next: run.next + more.len(),
                            ..run
                        }
                    },
                    None => if mode == BlockMode::InsertAfter || mode == BlockMode::PasteAfter {
                        let more = lowered_edits(
                            mode,
                            payloads,
                            register,
                            anchor,
                            line_num,
                            run.next,
                        );
                        BlockRun {
                            warnings: run.warnings.push(lowered_warning(anchor.line as nat)),
                            out: run.out + more,
                            next: run.next + more.len(),
                            ..run
                        }
                    } else if throw {
                        BlockRun {
                            error: Some(unresolved(line_num, anchor.line as nat)),
                            ..run
                        }
                    } else {
                        run
                    },
                }
            },
            _ => BlockRun { out: run.out.push(edit), ..run },
        }
    }
}

/// All edits, from left to right.
pub open spec fn block_run(
    edits: Seq<EditView>,
    text: Seq<char>,
    path: Seq<char>,
    throw: bool,
    resolutions: Seq<BlockResolution>,
    warnings: Seq<Seq<char>>,
) -> BlockRun
    decreases edits.len(),
{
    if edits.len() == 0 {
        BlockRun { resolutions, warnings, out: seq![], next: 0, error: None }
    } else {
        block_step(
            block_run(edits.drop_last(), text, path, throw, resolutions, warnings),
            edits.last(),
            text,
            path,
            throw,
        )
    }
}

// ---------------------------------------------------------------------------------------------
// Laws

proof fn lemma_section_end(lines: Seq<Seq<char>>, from: nat, level: nat)
    requires
        from <= lines.len(),
    ensures
        from <= section_end(lines, from, level) <= lines.len(),
    decreases lines.len() - from,
{
    if from < lines.len() {
        lemma_section_end(lines, from + 1, level);
    }
}

proof fn lemma_dedent(lines: Seq<Seq<char>>, from: nat, base: nat)
    requires
        from <= lines.len(),
    ensures
        from <= dedent(lines, from, base) <= lines.len(),
    decreases lines.len() - from,
{
    if from < lines.len() {
        lemma_dedent(lines, from + 1, base);
    }
}

proof fn lemma_closing_line(lines: Seq<Seq<char>>, from: nat, depth: nat, open: char)
    ensures
        closing_line(lines, from, depth, open) matches Some(n) ==> from < n <= lines.len(),
    decreases lines.len() - from,
{
    if from < lines.len() {
        match depth_after(code_of(lines[from as int]), depth, open) {
            None => {},
            Some(now) => lemma_closing_line(lines, from + 1, now, open),
        }
    }
}

proof fn lemma_outermost_end(lines: Seq<Seq<char>>, line: nat, from: int)
    requires
        0 <= from,
    ensures
        ({
            let count = code_of(lines[line - 1]).len();
            match outermost_end(lines, line, from) {
                Some(end) => line < end <= lines.len() && exists|at: int|
                    {
                        &&& from <= at < count
                        &&& #[trigger] bracket_end(lines, line, at) == Some(end)
                        &&& forall|i: int| from <= i < at ==> bracket_end(lines, line, i) is None
                    },
                None => forall|i: int| from <= i < count ==> bracket_end(lines, line, i) is None,
            }
        }),
    decreases code_of(lines[line - 1]).len() - from,
{
    let code = code_of(lines[line - 1]);
    if from < code.len() {
        if let Some(depth) = depth_after(code.skip(from), 0, code[from]) {
            lemma_closing_line(lines, line, depth, code[from]);
        }
        if bracket_end(lines, line, from) is None {
            lemma_outermost_end(lines, line, from + 1);
        }
    }
}

/// A block begins on the line that was asked for, has more than one line, and lies in the text.
pub proof fn law_block_lies_in_text(path: Seq<char>, text: Seq<char>, line: nat)
    ensures
        block_span(path, text, line) matches Some((start, end)) ==> start == line && line < end
            <= lines_of(text).len(),
{
    let lines = lines_of(text);
    if 1 <= line <= lines.len() {
        if let Some(level) = heading(lines[line - 1]) {
            lemma_section_end(lines, line, level);
        }
        lemma_outermost_end(lines, line, 0);
        lemma_dedent(lines, line, indent(lines[line - 1]));
    }
}

/// A block of brackets is the outermost construct that begins on its line: a bracket opened on the
/// line ends it, and each one opened before that is closed on the line itself or not at all. There
/// is no such block only where no later line closes a bracket of the line.
pub proof fn law_outermost_bracket_decides(lines: Seq<Seq<char>>, line: nat)
    requires
        1 <= line <= lines.len(),
    ensures
        ({
            let count = code_of(lines[line - 1]).len();
            match brace_span(lines, line) {
                Some((start, end)) => start == line && exists|at: int|
                    {
                        &&& 0 <= at < count
                        &&& #[trigger] bracket_end(lines, line, at) == Some(end)
                        &&& forall|i: int| 0 <= i < at ==> bracket_end(lines, line, i) is None
                    },
                None => forall|i: int| 0 <= i < count ==> bracket_end(lines, line, i) is None,
            }
        }),
{
    lemma_outermost_end(lines, line, 0);
}

/// A list without block edits stands for itself.
pub proof fn law_run_without_block_edits(
    edits: Seq<EditView>,
    text: Seq<char>,
    path: Seq<char>,
    throw: bool,
    resolutions: Seq<BlockResolution>,
    warnings: Seq<Seq<char>>,
)
    requires
        forall|i: int| 0 <= i < edits.len() ==> !((#[trigger] edits[i]) is Block),
    ensures
        block_run(edits, text, path, throw, resolutions, warnings) == (BlockRun {
            resolutions,
            warnings,
            out: edits,
            next: 0,
            error: None,
        }),
    decreases edits.len(),
{
    if edits.len() > 0 {
        law_run_without_block_edits(edits.drop_last(), text, path, throw, resolutions, warnings);
        assert(edits =~= edits.drop_last().push(edits.last()));
    } else {
        assert(edits =~= seq![]);
    }
}

/// No block edit is left after a run.
pub proof fn law_run_leaves_no_block_edits(
    edits: Seq<EditView>,
    text: Seq<char>,
    path: Seq<char>,
    throw: bool,
    resolutions: Seq<BlockResolution>,
    warnings: Seq<Seq<char>>,
)
    ensures
        forall|i: int|
            #![trigger block_run(edits, text, path, throw, resolutions, warnings).out[i]]
            0 <= i < block_run(edits, text, path, throw, resolutions, warnings).out.len() ==> !(
            block_run(edits, text, path, throw, resolutions, warnings).out[i] is Block),
    decreases edits.len(),
{
    if edits.len() > 0 {
        law_run_leaves_no_block_edits(edits.drop_last(), text, path, throw, resolutions, warnings);
    }
}

// ---------------------------------------------------------------------------------------------
// Executable functions: where a block ends

pub fn has_block_edit(edits: &[Edit]) -> (yes: bool)
    ensures
        yes == exists|i: int| 0 <= i < edits@.len() && (#[trigger] edits@[i])@ is Block,
{
    let mut i: usize = 0;
    while i < edits.len()
        invariant
            i <= edits.len(),
            forall|j: int| 0 <= j < i ==> !((#[trigger] edits@[j])@ is Block),
        decreases edits.len() - i,
    {
        if let Edit::Block { .. } = &edits[i] {
            assert(edits@[i as int]@ is Block);
            return true;
        }
        i += 1;
    }
    false
}

fn looks_like_markdown(path: &str) -> (yes: bool)
    ensures
        yes == is_markdown_path(path@),
{
    let upper = chars_of(uppercase_string(chars_of(path).as_slice()).as_str());
    let p = upper.as_slice();
    ends_with(p, ".MD") || ends_with(p, ".MDX") || ends_with(p, ".MARKDOWN")
}

fn heading_level(line: &str) -> (r: Option<usize>)
    ensures
        match r {
            Some(level) => heading(line@) == Some(level as nat),
            None => heading(line@) is None,
        },
{
    let chars = chars_of(line);
    let t = trim_start(chars.as_slice(), CharClass::White);
    let level = count_leading(t, CharClass::Hash);
    if 1 <= level && level <= 6 && level < t.len() && t[level] == ' ' {
        Some(level)
    } else {
        None
    }
}

fn make_span(line: usize, end: usize) -> (r: Option<BlockSpan>)
    ensures
        span_view(r) == span_to(line as nat, end as nat),
{
    if end == line {
        None
    } else {
        Some(BlockSpan { start: line, end })
    }
}

fn markdown_section(lines: &[String], line: usize) -> (r: Option<BlockSpan>)
    requires
        1 <= line <= lines@.len(),
    ensures
        span_view(r) == markdown_span(strs(lines@), line as nat),
{
    let ghost texts = strs(lines@);
    assert(texts[line - 1] == lines@[line - 1]@);
    let level = match heading_level(lines[line - 1].as_str()) {
        Some(level) => level,
        None => {
            return None;
        },
    };
    let mut end = line;
    let mut stop = false;
    while end < lines.len() && !stop
        invariant
            line <= end <= lines.len(),
            texts == strs(lines@),
            if stop {
                section_end(texts, line as nat, level as nat) == end
            } else {
                section_end(texts, line as nat, level as nat) == section_end(
                    texts,
                    end as nat,
                    level as nat,
                )
            },
        decreases lines.len() - end + if stop { 0int } else { 1 },
    {
        assert(texts[end as int] == lines@[end as int]@);
        match heading_level(lines[end].as_str()) {
            Some(next) => {
                if next <= level {
                    stop = true;
                } else {
                    end += 1;
                }
            },
            None => {
                end += 1;
            },
        }
    }
    make_span(line, end)
}

/// The characters of a line outside quotes.
fn code_chars(line: &str) -> (out: Vec<char>)
    ensures
        out@ == code_of(line@),
        out@.len() <= line@.len(),
{
    let chars = chars_of(line);
    let mut quote: Option<char> = None;
    let mut escaped = false;
    let mut code: Vec<char> = Vec::new();
    let mut i: usize = 0;
    proof {
        assert(line@.take(0) =~= seq![]);
    }
    while i < chars.len()
        invariant
            i <= chars.len(),
            chars@ == line@,
            code@.len() <= i,
            scan_line(line@.take(i as int)) == (CodeScan { quote, escaped, code: code@ }),
        decreases chars.len() - i,
    {
        let c = chars[i];
        proof {
            assert(line@.take(i + 1).drop_last() =~= line@.take(i as int));
            assert(line@.take(i + 1).last() == c);
        }
        match quote {
            Some(q) => {
                if escaped {
                    escaped = false;
                } else if c == '\\' && q != '\'' {
                    escaped = true;
                } else if c == q {
                    quote = None;
                }
            },
            None => {
                if c == '"' || c == '\'' || c == '`' {
                    quote = Some(c);
                } else {
                    code.push(c);
                }
            },
        }
        i += 1;
    }
    proof {
        assert(line@.take(i as int) =~= line@);
    }
    code
}

fn matching(open: char) -> (c: char)
    ensures
        c == closer(open),
{
    match open {
        '{' => '}',
        '(' => ')',
        '[' => ']',
        _ => open,
    }
}

/// How many brackets are open after a line, or that the last one was closed.
fn depth_over(code: &[char], depth: usize, open: char) -> (r: Option<usize>)
    requires
        depth + code@.len() <= usize::MAX,
    ensures
        match r {
            Some(now) => depth_after(code@, depth as nat, open) == Some(now as nat) && now <= depth
                + code@.len(),
            None => depth_after(code@, depth as nat, open) is None,
        },
{
    let close = matching(open);
    let mut now = depth;
    let mut i: usize = 0;
    proof {
        assert(code@.skip(0) =~= code@);
    }
    while i < code.len()
        invariant
            i <= code.len(),
            close == closer(open),
            now <= depth + i,
            depth + code@.len() <= usize::MAX,
            depth_after(code@, depth as nat, open) == depth_after(
                code@.skip(i as int),
                now as nat,
                open,
            ),
        decreases code.len() - i,
    {
        let c = code[i];
        proof {
            assert(code@.skip(i as int)[0] == c);
            assert(code@.skip(i as int).skip(1) =~= code@.skip(i + 1));
        }
        if c == open {
            now += 1;
        } else if c == close && now == 1 {
            return None;
        } else if c == close && now > 1 {
            now -= 1;
        }
        i += 1;
    }
    Some(now)
}

/// The line after `line` in which the last of `first` open brackets is closed.
fn closed_at(lines: &[String], line: usize, first: usize, open: char) -> (r: Option<usize>)
    requires
        line <= lines@.len(),
        total_len(strs(lines@)) <= usize::MAX,
        first <= total_len(strs(lines@).take(line as int)),
    ensures
        match r {
            Some(end) => closing_line(strs(lines@), line as nat, first as nat, open) == Some(
                end as nat,
            ),
            None => closing_line(strs(lines@), line as nat, first as nat, open) is None,
        },
{
    let ghost texts = strs(lines@);
    let mut depth: usize = first;
    let mut i = line;
    while i < lines.len()
        invariant
            line <= i <= lines.len(),
            texts == strs(lines@),
            total_len(texts) <= usize::MAX,
            depth <= total_len(texts.take(i as int)),
            closing_line(texts, line as nat, first as nat, open) == closing_line(
                texts,
                i as nat,
                depth as nat,
                open,
            ),
        decreases lines.len() - i,
    {
        proof {
            assert(texts[i as int] == lines@[i as int]@);
            lemma_total_len_take(texts, i as int);
        }
        let code = code_chars(lines[i].as_str());
        match depth_over(code.as_slice(), depth, open) {
            None => {
                return Some(i + 1);
            },
            Some(now) => {
                depth = now;
            },
        }
        i += 1;
    }
    None
}

fn brace_block(lines: &[String], line: usize) -> (r: Option<BlockSpan>)
    requires
        1 <= line <= lines@.len(),
        total_len(strs(lines@)) <= usize::MAX,
    ensures
        span_view(r) == brace_span(strs(lines@), line as nat),
{
    let ghost texts = strs(lines@);
    assert(texts[line - 1] == lines@[line - 1]@);
    let code = code_chars(lines[line - 1].as_str());
    proof {
        lemma_total_len_take(texts, line - 1);
    }
    let mut i: usize = 0;
    while i < code.len()
        invariant
            1 <= line <= lines@.len(),
            i <= code.len(),
            texts == strs(lines@),
            code@ == code_of(texts[line - 1]),
            code@.len() <= total_len(texts.take(line as int)),
            total_len(texts) <= usize::MAX,
            outermost_end(texts, line as nat, 0) == outermost_end(texts, line as nat, i as int),
        decreases code.len() - i,
    {
        let c = code[i];
        if c == '{' || c == '(' || c == '[' {
            if let Some(depth) = depth_over(skip(code.as_slice(), i), 0, c) {
                if let Some(end) = closed_at(lines, line, depth, c) {
                    return Some(BlockSpan { start: line, end });
                }
            }
        }
        i += 1;
    }
    None
}

fn indent_width(line: &str) -> (width: u128)
    ensures
        width == indent(line@),
{
    let chars = chars_of(line);
    let n = count_leading(chars.as_slice(), CharClass::Blank);
    let ghost pad = line@.take(n as int);
    let mut width: u128 = 0;
    let mut i: usize = 0;
    while i < n
        invariant
            i <= n <= chars.len(),
            chars@ == line@,
            pad == line@.take(n as int),
            width == blank_width(pad.take(i as int)),
            width <= 4 * i,
        decreases n - i,
    {
        proof {
            assert(pad.take(i + 1).drop_last() =~= pad.take(i as int));
            assert(pad.take(i + 1).last() == chars@[i as int]);
        }
        if chars[i] == '\t' {
            width += 4;
        } else {
            width += 1;
        }
        i += 1;
    }
    proof {
        assert(pad.take(i as int) =~= pad);
    }
    width
}

fn indent_block(lines: &[String], line: usize) -> (r: Option<BlockSpan>)
    requires
        1 <= line <= lines@.len(),
    ensures
        span_view(r) == indent_span(strs(lines@), line as nat),
{
    let ghost texts = strs(lines@);
    assert(texts[line - 1] == lines@[line - 1]@);
    let chars = chars_of(lines[line - 1].as_str());
    let opener = trim_end(chars.as_slice(), CharClass::White);
    if !last_is(opener, ':') && !last_is(opener, '{') {
        return None;
    }
    let base = indent_width(lines[line - 1].as_str());
    let mut end = line;
    let mut stop = false;
    while end < lines.len() && !stop
        invariant
            line <= end <= lines.len(),
            texts == strs(lines@),
            if stop {
                dedent(texts, line as nat, base as nat) == end
            } else {
                dedent(texts, line as nat, base as nat) == dedent(texts, end as nat, base as nat)
            },
        decreases lines.len() - end + if stop { 0int } else { 1 },
    {
        assert(texts[end as int] == lines@[end as int]@);
        let candidate = chars_of(lines[end].as_str());
        if blank(candidate.as_slice()) || indent_width(lines[end].as_str()) > base {
            end += 1;
        } else {
            stop = true;
        }
    }
    make_span(line, end)
}

/// Resolve the outermost multi-line construct that begins on `line`.
pub fn resolve_block(path: &str, text: &str, line: usize) -> (r: Option<BlockSpan>)
    ensures
        span_view(r) == block_span(path@, text@, line as nat),
{
    let chars = chars_of(text);
    let lines = split_lines(chars.as_slice());
    proof {
        lemma_lines_len(text@);
        assert(strs(lines@).len() == lines@.len());
        assert(chars@.len() == chars.len());
    }
    if line == 0 || line > lines.len() {
        return None;
    }
    if looks_like_markdown(path) {
        let span = markdown_section(lines.as_slice(), line);
        if span.is_some() {
            return span;
        }
    }
    let span = brace_block(lines.as_slice(), line);
    if span.is_some() {
        return span;
    }
    indent_block(lines.as_slice(), line)
}

// ---------------------------------------------------------------------------------------------
// Executable functions: edits

fn lowered_message(line: usize) -> (out: String)
    ensures
        out@ == lowered_warning(line as nat),
{
    let mut out = "PUT >".to_owned();
    push_decimal(&mut out, line);
    out.append("*: could not resolve block; lowered to PUT >");
    push_decimal(&mut out, line);
    out
}

fn unresolved_message(line_num: usize, line: usize) -> (out: String)
    ensures
        out@ == unresolved(line_num as nat, line as nat),
{
    let mut out = line_message(line_num);
    out.append("could not resolve block opening at ");
    push_decimal(&mut out, line);
    out
}

/// Append one edit; gives the next free number.
fn push_edit(out: &mut Vec<Edit>, edit: Edit, next: usize) -> (r: usize)
    requires
        next <= old(out)@.len(),
    ensures
        edit_views(final(out)@) == edit_views(old(out)@) + seq![edit@],
        r == next + 1,
        r <= final(out)@.len(),
{
    out.push(edit);
    proof {
        assert(out@.len() == out.len());
        assert(edit_views(out@) =~= edit_views(old(out)@) + seq![edit@]);
    }
    next + 1
}

/// Append what stands for a block edit on the lines of `span`; gives the next free number.
fn push_block_edits(
    out: &mut Vec<Edit>,
    mode: BlockMode,
    payloads: &[String],
    register: &Option<String>,
    span: BlockSpan,
    line_num: usize,
    next: usize,
) -> (r: usize)
    requires
        next <= old(out)@.len(),
    ensures
        ({
            let more = block_edits(
                mode,
                strs(payloads@),
                opt_text(*register),
                span.start,
                span.end,
                line_num as nat,
                next as nat,
            );
            &&& edit_views(final(out)@) == edit_views(old(out)@) + more
            &&& r == next + more.len()
        }),
        r <= final(out)@.len(),
{
    let first = Anchor { line: span.start };
    let last = Anchor { line: span.end };
    let range = ParsedRange { start: first, end: last };
    let ghost had = edit_views(out@);
    match mode {
        BlockMode::Replace => match register {
            Some(name) => push_edit(
                out,
                Edit::Paste {
                    at: PasteTarget::Span { range },
                    register: Some(name.clone()),
                    line_num,
                    index: next,
                    block_start: None,
                },
                next,
            ),
            None => {
                let cursor = Cursor::BeforeAnchor { anchor: first };
                let after = push_inserts(out, payloads, cursor, line_num, next, true, None);
                let ghost mid = edit_views(out@);
                let done = push_deletes(out, span.start, span.end, line_num, after);
                proof {
                    let a = inserts(
                        strs(payloads@),
                        cursor,
                        line_num as nat,
                        next as nat,
                        true,
                        None,
                    );
                    let b = deletes(span.start, span.end, line_num as nat, after as nat);
                    assert(had + a + b =~= had + (a + b));
                }
                done
            },
        },
        BlockMode::Cut => {
            let cut = Edit::Cut {
                range,
                register: copy_opt_string(register),
                line_num,
                index: next,
            };
            let after = push_edit(out, cut, next);
            let done = push_deletes(out, span.start, span.end, line_num, after);
            proof {
                let b = deletes(span.start, span.end, line_num as nat, after as nat);
                assert(had + seq![cut@] + b =~= had + (seq![cut@] + b));
            }
            done
        },
        BlockMode::InsertAfter => push_inserts(
            out,
            payloads,
            Cursor::AfterAnchor { anchor: last },
            line_num,
            next,
            false,
            Some(span.start),
        ),
        BlockMode::PasteAfter => push_edit(
            out,
            Edit::Paste {
                at: PasteTarget::Gap { cursor: Cursor::AfterAnchor { anchor: last } },
                register: copy_opt_string(register),
                line_num,
                index: next,
                block_start: Some(span.start),
            },
            next,
        ),
    }
}

/// Append what stands for a block edit after a line that opens no block.
fn push_lowered_edits(
    out: &mut Vec<Edit>,
    mode: BlockMode,
    payloads: &[String],
    register: &Option<String>,
    anchor: Anchor,
    line_num: usize,
    next: usize,
) -> (r: usize)
    requires
        next <= old(out)@.len(),
        mode == BlockMode::InsertAfter || mode == BlockMode::PasteAfter,
    ensures
        ({
            let more = lowered_edits(
                mode,
                strs(payloads@),
                opt_text(*register),
                anchor,
                line_num as nat,
                next as nat,
            );
            &&& edit_views(final(out)@) == edit_views(old(out)@) + more
            &&& r == next + more.len()
        }),
        r <= final(out)@.len(),
{
    let cursor = Cursor::AfterAnchor { anchor };
    if mode == BlockMode::InsertAfter {
        push_inserts(out, payloads, cursor, line_num, next, false, None)
    } else {
        push_edit(
            out,
            Edit::Paste {
                at: PasteTarget::Gap { cursor },
                register: copy_opt_string(register),
                line_num,
                index: next,
                block_start: None,
            },
            next,
        )
    }
}

/// One edit of `resolve_block_edits`; gives the next free number.
fn resolve_block_edit(
    edit: &Edit,
    text: &str,
    path: &str,
    on_unresolved_throw: bool,
    resolutions: &mut Vec<BlockResolution>,
    warnings: &mut Vec<String>,
    out: &mut Vec<Edit>,
    next: usize,
) -> (res: Result<usize, BlockError>)
    requires
        next <= old(out)@.len(),
    ensures
        ({
            let run = block_step(
                BlockRun {
                    resolutions: old(resolutions)@,
                    warnings: strs(old(warnings)@),
                    out: edit_views(old(out)@),
                    next: next as nat,
                    error: None,
                },
                edit@,
                text@,
                path@,
                on_unresolved_throw,
            );
            &&& final(resolutions)@ == run.resolutions
            &&& strs(final(warnings)@) == run.warnings
            &&& match res {
                Ok(n) => run.error is None && edit_views(final(out)@) == run.out && n == run.next
                    && n <= final(out)@.len(),
                Err(e) => run.error == Some(e@),
            }
        }),
        res is Ok && cuts_run_forward(edit_views(old(out)@)) && cuts_run_forward(seq![edit@])
            ==> cuts_run_forward(edit_views(final(out)@)),
{
    proof {
        assert(seq![edit@][0] == edit@);
    }
    match edit {
        Edit::Block { anchor, payloads, mode, register, line_num, .. } => {
            match resolve_block(path, text, anchor.line) {
                Some(span) => {
                    proof {
                        law_block_lies_in_text(path@, text@, anchor.line as nat);
                    }
                    resolutions.push(
                        BlockResolution { line: anchor.line, start: span.start, end: span.end },
                    );
                    Ok(
                        push_block_edits(
                            out,
                            *mode,
                            payloads.as_slice(),
                            register,
                            span,
                            *line_num,
                            next,
                        ),
                    )
                },
                None => {
                    if *mode == BlockMode::InsertAfter || *mode == BlockMode::PasteAfter {
                        let warning = lowered_message(anchor.line);
                        warnings.push(warning);
                        proof {
                            assert(strs(warnings@) =~= strs(old(warnings)@).push(warning@));
                        }
                        return Ok(
                            push_lowered_edits(
                                out,
                                *mode,
                                payloads.as_slice(),
                                register,
                                *anchor,
                                *line_num,
                                next,
                            ),
                        );
                    }
                    if on_unresolved_throw {
                        return Err(
                            BlockError::Message(unresolved_message(*line_num, anchor.line)),
                        );
                    }
                    Ok(next)
                },
            }
        },
        other => {
            let kept = other.clone();
            out.push(kept);
            proof {
                assert(edit_views(out@) =~= edit_views(old(out)@).push(edit@));
            }
            Ok(next)
        },
    }
}

/// Replace block edits by edits on the lines of their blocks. Cuts run forward where they did before.
pub fn resolve_block_edits(
    edits: &[Edit],
    text: &str,
    path: &str,
    on_unresolved_throw: bool,
    resolutions: &mut Vec<BlockResolution>,
    warnings: &mut Vec<String>,
) -> (res: Result<Vec<Edit>, BlockError>)
    ensures
        ({
            let run = block_run(
                edit_views(edits@),
                text@,
                path@,
                on_unresolved_throw,
                old(resolutions)@,
                strs(old(warnings)@),
            );
            &&& final(resolutions)@ == run.resolutions
            &&& strs(final(warnings)@) == run.warnings
            &&& match res {
                Ok(out) => run.error is None && edit_views(out@) == run.out,
                Err(e) => run.error == Some(e@),
            }
        }),
        res matches Ok(out) ==> cuts_run_forward(edit_views(edits@)) ==> cuts_run_forward(
            edit_views(out@),
        ),
{
    let mut out: Vec<Edit> = Vec::new();
    let mut next: usize = 0;
    let mut i: usize = 0;
    let ghost all = edit_views(edits@);
    let ghost res0 = resolutions@;
    let ghost warn0 = strs(warnings@);
    let ghost mut run = block_run(
        all.take(0),
        text@,
        path@,
        on_unresolved_throw,
        res0,
        warn0,
    );
    proof {
        assert(all.take(0) =~= seq![]);
        assert(edit_views(out@) =~= seq![]);
    }
    while i < edits.len()
        invariant
            i <= edits.len(),
            all == edit_views(edits@),
            res0 == old(resolutions)@,
            warn0 == strs(old(warnings)@),
            next <= out@.len(),
            run == block_run(
                all.take(i as int),
                text@,
                path@,
                on_unresolved_throw,
                res0,
                warn0,
            ),
            run.error is None,
            run.resolutions == resolutions@,
            run.warnings == strs(warnings@),
            run.out == edit_views(out@),
            run.next == next,
            cuts_run_forward(all) ==> cuts_run_forward(edit_views(out@)),
        decreases edits.len() - i,
    {
        proof {
            assert(cuts_run_forward(all) ==> cuts_run_forward(seq![all[i as int]]));
            lemma_run_step(all, i as int, text@, path@, on_unresolved_throw, res0, warn0);
            assert(all[i as int] == edits@[i as int]@);
            run = block_run(all.take(i + 1), text@, path@, on_unresolved_throw, res0, warn0);
        }
        match resolve_block_edit(
            &edits[i],
            text,
            path,
            on_unresolved_throw,
            resolutions,
            warnings,
            &mut out,
            next,
        ) {
            Ok(n) => {
                next = n;
            },
            Err(e) => {
                return Err(e);
            },
        }
        i += 1;
    }
    proof {
        assert(all.take(i as int) =~= all);
    }
    Ok(out)
}

/// A run over one more edit.
proof fn lemma_run_step(
    edits: Seq<EditView>,
    i: int,
    text: Seq<char>,
    path: Seq<char>,
    throw: bool,
    resolutions: Seq<BlockResolution>,
    warnings: Seq<Seq<char>>,
)
    requires
        0 <= i < edits.len(),
    ensures
        ({
            let next = block_run(edits.take(i + 1), text, path, throw, resolutions, warnings);
            &&& next == block_step(
                block_run(edits.take(i), text, path, throw, resolutions, warnings),
                edits[i],
                text,
                path,
                throw,
            )
            &&& next.error is Some ==> next == block_run(
                edits,
                text,
                path,
                throw,
                resolutions,
                warnings,
            )
        }),
{
    assert(edits.take(i + 1).drop_last() =~= edits.take(i));
    assert(edits.take(i + 1).last() == edits[i]);
    if block_run(edits.take(i + 1), text, path, throw, resolutions, warnings).error is Some {
        lemma_error_stays(edits, i + 1, text, path, throw, resolutions, warnings);
    }
}

/// A run that ended with a message keeps it, whatever follows.
proof fn lemma_error_stays(
    edits: Seq<EditView>,
    i: int,
    text: Seq<char>,
    path: Seq<char>,
    throw: bool,
    resolutions: Seq<BlockResolution>,
    warnings: Seq<Seq<char>>,
)
    requires
        0 <= i <= edits.len(),
        block_run(edits.take(i), text, path, throw, resolutions, warnings).error is Some,
    ensures
        block_run(edits, text, path, throw, resolutions, warnings) == block_run(
            edits.take(i),
            text,
            path,
            throw,
            resolutions,
            warnings,
        ),
    decreases edits.len(),
{
    if i < edits.len() {
        let front = edits.drop_last();
        assert(front.take(i) =~= edits.take(i));
        lemma_error_stays(front, i, text, path, throw, resolutions, warnings);
    } else {
        assert(edits.take(i) =~= edits);
    }
}

} // verus!
