//! What a block is: which lines a heading, a bracket or an indentation takes in.

use crate::block::{
    blank_width, block_run, block_span, brace_span, bracket_end, closer, closing_line, code_of,
    dedent, depth_after, heading, indent, is_markdown_path, is_opener, is_quote,
    law_outermost_bracket_decides, markdown_span, scan_char, scan_line, section_end, CodeScan,
};
use crate::text::{
    class_has, decimal, ends_with_char, is_blank, is_white, leading, lemma_leading,
    lemma_leading_is, lines_of, trimmed_end, trimmed_start, uppercase, CharClass,
};
use crate::types::{
    deletes, inserts, Anchor, BlockMode, BlockResolution, Cursor, EditView, ParsedRange,
    PasteTarget,
};
use vstd::prelude::*;

verus! {

// ---------------------------------------------------------------------------------------------
// Headings

/// A heading: white space, as many number signs as its level, and a space. There are six levels.
pub open spec fn is_heading(line: Seq<char>, level: int) -> bool {
    1 <= level <= 6 && exists|n: int|
        {
            &&& 0 <= n && n + level < line.len()
            &&& #[trigger] is_blank(line.take(n))
            &&& forall|i: int| n <= i < n + level ==> line[i] == '#'
            &&& line[n + level] == ' '
        }
}

/// A line is read as a heading of a level if and only if it is one.
pub proof fn law_headings_are_read(line: Seq<char>, level: nat)
    ensures
        heading(line) == Some(level) <==> is_heading(line, level as int),
{
    let n = leading(line, CharClass::White);
    lemma_leading(line, CharClass::White);
    let t = trimmed_start(line, CharClass::White);
    let k = leading(t, CharClass::Hash);
    lemma_leading(t, CharClass::Hash);
    if heading(line) == Some(level) {
        assert forall|i: int| 0 <= i < n implies is_white(#[trigger] line.take(n as int)[i]) by {
            assert(class_has(CharClass::White, line[i]));
        }
        assert forall|i: int| n <= i < n + level implies line[i] == '#' by {
            assert(class_has(CharClass::Hash, t[i - n]));
        }
        assert(line[(n + level) as int] == t[level as int]);
        assert(is_blank(line.take(n as int)));
    }
    if is_heading(line, level as int) {
        let m = choose|m: int|
            {
                &&& 0 <= m && m + level < line.len()
                &&& #[trigger] is_blank(line.take(m))
                &&& forall|i: int| m <= i < m + level ==> line[i] == '#'
                &&& line[m + level] == ' '
            };
        assert forall|i: int| 0 <= i < m implies class_has(CharClass::White, #[trigger] line[i]) by {
            assert(is_white(line.take(m)[i]));
        }
        assert(line[m] == '#');
        lemma_leading_is(line, CharClass::White, m as nat);
        assert forall|i: int| 0 <= i < level implies class_has(CharClass::Hash, #[trigger] t[i]) by {
            assert(t[i] == line[m + i]);
        }
        assert(t[level as int] == ' ');
        lemma_leading_is(t, CharClass::Hash, level);
    }
}

/// A heading at or above the level.
pub open spec fn is_heading_to(line: Seq<char>, level: int) -> bool {
    exists|k: int| k <= level && #[trigger] is_heading(line, k)
}

proof fn lemma_section(lines: Seq<Seq<char>>, from: nat, level: nat, end: nat)
    requires
        from <= end <= lines.len(),
        forall|m: int| from <= m < end ==> !is_heading_to(#[trigger] lines[m], level as int),
        end < lines.len() ==> is_heading_to(lines[end as int], level as int),
    ensures
        section_end(lines, from, level) == end,
    decreases end - from,
{
    if from < end {
        assert(!is_heading_to(lines[from as int], level as int));
        if let Some(next) = heading(lines[from as int]) {
            law_headings_are_read(lines[from as int], next);
        }
        lemma_section(lines, from + 1, level, end);
    } else if end < lines.len() {
        let k = choose|k: int| k <= level && #[trigger] is_heading(lines[end as int], k);
        law_headings_are_read(lines[end as int], k as nat);
    }
}

/// In Markdown a heading takes in all lines up to the next heading at or above its level, or to the
/// end of the text.
pub proof fn law_heading_takes_in_its_section(
    path: Seq<char>,
    text: Seq<char>,
    line: nat,
    level: int,
    end: nat,
)
    requires
        is_markdown_path(path),
        1 <= line < end <= lines_of(text).len(),
        is_heading(lines_of(text)[line - 1], level),
        forall|m: int| line <= m < end ==> !is_heading_to(#[trigger] lines_of(text)[m], level),
        end < lines_of(text).len() ==> is_heading_to(lines_of(text)[end as int], level),
    ensures
        block_span(path, text, line) == Some((line, end)),
{
    let lines = lines_of(text);
    law_headings_are_read(lines[line - 1], level as nat);
    lemma_section(lines, line, level as nat, end);
}

/// Files whose names end in `.md`, `.mdx` or `.markdown`, in upper or lower case, are Markdown, and
/// no others.
pub proof fn law_markdown_files(path: Seq<char>)
    ensures
        is_markdown_path(path) <==> exists|stem: Seq<char>, ending: Seq<char>|
            path == #[trigger] (stem + ending) && (uppercase(ending) == ".MD"@ || uppercase(ending)
                == ".MDX"@ || uppercase(ending) == ".MARKDOWN"@),
{
    let p = uppercase(path);
    if is_markdown_path(path) {
        let e = if ".MD"@.is_suffix_of(p) {
            ".MD"@
        } else if ".MDX"@.is_suffix_of(p) {
            ".MDX"@
        } else {
            ".MARKDOWN"@
        };
        let n = path.len() - e.len();
        assert(path =~= path.take(n) + path.skip(n));
        assert(uppercase(path.skip(n)) =~= p.subrange(n, p.len() as int));
        assert(uppercase(path.skip(n)) == e);
    }
    if exists|stem: Seq<char>, ending: Seq<char>|
        path == #[trigger] (stem + ending) && (uppercase(ending) == ".MD"@ || uppercase(ending)
            == ".MDX"@ || uppercase(ending) == ".MARKDOWN"@) {
        let (stem, ending) = choose|stem: Seq<char>, ending: Seq<char>|
            path == #[trigger] (stem + ending) && (uppercase(ending) == ".MD"@ || uppercase(ending)
                == ".MDX"@ || uppercase(ending) == ".MARKDOWN"@);
        let e = uppercase(ending);
        assert(p.subrange(p.len() - e.len(), p.len() as int) =~= e);
        assert(e.is_suffix_of(p));
    }
}

// ---------------------------------------------------------------------------------------------
// Indentation

/// How far a line is indented by `n` spaces and tabs at its front: a tab counts for four.
pub open spec fn is_indented_by(line: Seq<char>, width: int) -> bool {
    exists|n: int|
        {
            &&& 0 <= n <= line.len()
            &&& forall|i: int| 0 <= i < n ==> line[i] == ' ' || line[i] == '\t'
            &&& n < line.len() ==> line[n] != ' ' && line[n] != '\t'
            &&& width == n + 3 * (#[trigger] line.take(n)).filter(|c: char| c == '\t').len()
        }
}

proof fn lemma_blank_width(pad: Seq<char>)
    ensures
        blank_width(pad) == pad.len() + 3 * pad.filter(|c: char| c == '\t').len(),
    decreases pad.len(),
{
    reveal(Seq::filter);
    if pad.len() > 0 {
        lemma_blank_width(pad.drop_last());
    }
}

/// The width of an indentation is that of the spaces and tabs at the front of the line.
pub proof fn law_indentation_is_measured(line: Seq<char>, width: nat)
    ensures
        indent(line) == width <==> is_indented_by(line, width as int),
{
    let n = leading(line, CharClass::Blank);
    lemma_leading(line, CharClass::Blank);
    lemma_blank_width(line.take(n as int));
    assert forall|i: int| 0 <= i < n implies line[i] == ' ' || line[i] == '\t' by {
        assert(class_has(CharClass::Blank, line[i]));
    }
    assert(is_indented_by(line, indent(line) as int)) by {
        assert(line.take(n as int) == line.take(n as int));
    }
    if is_indented_by(line, width as int) {
        let m = choose|m: int|
            {
                &&& 0 <= m <= line.len()
                &&& forall|i: int| 0 <= i < m ==> line[i] == ' ' || line[i] == '\t'
                &&& m < line.len() ==> line[m] != ' ' && line[m] != '\t'
                &&& width == m + 3 * (#[trigger] line.take(m)).filter(|c: char| c == '\t').len()
            };
        assert forall|i: int| 0 <= i < m implies class_has(CharClass::Blank, #[trigger] line[i]) by {}
        lemma_leading_is(line, CharClass::Blank, m as nat);
    }
}

/// A line that is blank or indented further than `base`.
pub open spec fn is_inside(line: Seq<char>, base: int) -> bool {
    is_blank(line) || exists|width: int| width > base && #[trigger] is_indented_by(line, width)
}

proof fn lemma_inside(line: Seq<char>, base: nat)
    ensures
        is_inside(line, base as int) <==> is_blank(line) || indent(line) > base,
{
    law_indentation_is_measured(line, indent(line));
    if exists|width: int| width > base && #[trigger] is_indented_by(line, width) {
        let width = choose|width: int| width > base && #[trigger] is_indented_by(line, width);
        law_indentation_is_measured(line, width as nat);
    }
}

proof fn lemma_dedent_is(lines: Seq<Seq<char>>, from: nat, base: nat)
    requires
        from <= lines.len(),
    ensures
        ({
            let end = dedent(lines, from, base);
            &&& from <= end <= lines.len()
            &&& forall|m: int| from <= m < end ==> is_inside(#[trigger] lines[m], base as int)
            &&& end < lines.len() ==> !is_inside(lines[end as int], base as int)
        }),
    decreases lines.len() - from,
{
    if from < lines.len() {
        lemma_inside(lines[from as int], base);
        if is_blank(lines[from as int]) || indent(lines[from as int]) > base {
            lemma_dedent_is(lines, from + 1, base);
        }
    }
}

/// A line that ends in a colon or a brace, white space aside, and opens no other block takes in all
/// lines up to the first that is not blank and not indented further. Blank lines never end the
/// block. A line that takes in no other is no block.
pub proof fn law_indentation_takes_in_its_lines(
    path: Seq<char>,
    text: Seq<char>,
    line: nat,
    base: int,
)
    requires
        1 <= line <= lines_of(text).len(),
        !(is_markdown_path(path) && markdown_span(lines_of(text), line) is Some),
        brace_span(lines_of(text), line) is None,
        is_indented_by(lines_of(text)[line - 1], base),
    ensures
        ({
            let lines = lines_of(text);
            let opens = exists|n: int|
                {
                    &&& 1 <= n <= lines[line - 1].len()
                    &&& lines[line - 1][n - 1] == ':' || lines[line - 1][n - 1] == '{'
                    &&& #[trigger] is_blank(lines[line - 1].skip(n))
                };
            match block_span(path, text, line) {
                Some((start, end)) => {
                    &&& opens
                    &&& start == line
                    &&& line < end <= lines.len()
                    &&& forall|m: int| line <= m < end ==> is_inside(#[trigger] lines[m], base)
                    &&& end < lines.len() ==> !is_inside(lines[end as int], base)
                },
                None => !opens || line == lines.len() || !is_inside(lines[line as int], base),
            }
        }),
{
    let lines = lines_of(text);
    let opener = lines[line - 1];
    law_indentation_is_measured(opener, indent(opener));
    law_indentation_is_measured(opener, base as nat);
    assert(base >= 0) by {
        let n = choose|n: int|
            {
                &&& 0 <= n <= opener.len()
                &&& forall|i: int| 0 <= i < n ==> opener[i] == ' ' || opener[i] == '\t'
                &&& n < opener.len() ==> opener[n] != ' ' && opener[n] != '\t'
                &&& base == n + 3 * (#[trigger] opener.take(n)).filter(|c: char| c == '\t').len()
            };
    }
    lemma_dedent_is(lines, line, base as nat);
    lemma_opens(opener);
}

proof fn lemma_opens(line: Seq<char>)
    ensures
        ({
            let t = trimmed_end(line, CharClass::White);
            (ends_with_char(t, ':') || ends_with_char(t, '{')) <==> exists|n: int|
                {
                    &&& 1 <= n <= line.len()
                    &&& line[n - 1] == ':' || line[n - 1] == '{'
                    &&& #[trigger] is_blank(line.skip(n))
                }
        }),
{
    let t = trimmed_end(line, CharClass::White);
    crate::text::lemma_trailing(line, CharClass::White);
    let n = t.len() as int;
    assert forall|i: int| 0 <= i < line.skip(n).len() implies is_white(
        #[trigger] line.skip(n)[i],
    ) by {
        assert(class_has(CharClass::White, line[n + i]));
    }
    assert(is_blank(line.skip(n)));
    if exists|n: int|
        {
            &&& 1 <= n <= line.len()
            &&& line[n - 1] == ':' || line[n - 1] == '{'
            &&& #[trigger] is_blank(line.skip(n))
        } {
        let m = choose|m: int|
            {
                &&& 1 <= m <= line.len()
                &&& line[m - 1] == ':' || line[m - 1] == '{'
                &&& #[trigger] is_blank(line.skip(m))
            };
        if m < n {
            assert(is_white(line.skip(m)[n - 1 - m]));
        }
        if n < m {
            assert(is_white(line.skip(n)[m - 1 - n]));
        }
    }
}

// ---------------------------------------------------------------------------------------------
// Brackets

pub open spec fn count_of(s: Seq<char>, c: char) -> int {
    s.filter(|x: char| x == c).len() as int
}

/// The code of the lines after `from` up to line `to`, one after the other.
pub open spec fn code_between(lines: Seq<Seq<char>>, from: int, to: int) -> Seq<char>
    decreases to - from,
{
    if to <= from {
        seq![]
    } else {
        code_between(lines, from, to - 1) + code_of(lines[to - 1])
    }
}

pub open spec fn are_partners(open: char, close: char) -> bool {
    (open == '{' && close == '}') || (open == '(' && close == ')') || (open == '[' && close == ']')
}

/// The bracket that the code begins with is closed in it: up to some place as many brackets of its
/// kind are closed as are opened.
pub open spec fn is_closed_in(code: Seq<char>, open: char, close: char) -> bool {
    exists|p: int|
        0 < p <= code.len() && count_of(#[trigger] code.take(p), open) == count_of(
            code.take(p),
            close,
        )
}

/// The bracket at an index of the line is closed on line `end`, which is a later one.
pub open spec fn closes_on(lines: Seq<Seq<char>>, line: int, at: int, end: int) -> bool {
    let code = code_of(lines[line - 1]);
    &&& line < end <= lines.len()
    &&& exists|close: char|
        {
            &&& #[trigger] are_partners(code[at], close)
            &&& is_closed_in(code.skip(at) + code_between(lines, line, end), code[at], close)
            &&& !is_closed_in(code.skip(at) + code_between(lines, line, end - 1), code[at], close)
        }
}

proof fn lemma_count_concat(a: Seq<char>, b: Seq<char>, c: char)
    ensures
        count_of(a + b, c) == count_of(a, c) + count_of(b, c),
{
    Seq::filter_distributes_over_add(a, b, |x: char| x == c);
}

proof fn lemma_count_one(x: char, c: char)
    ensures
        count_of(seq![x], c) == if x == c {
            1int
        } else {
            0
        },
{
    reveal(Seq::filter);
    reveal_with_fuel(Seq::filter, 2);
    assert(seq![x].drop_last() =~= seq![]);
}

proof fn lemma_count_none(c: char)
    ensures
        count_of(Seq::<char>::empty(), c) == 0,
{
    reveal(Seq::filter);
}

proof fn lemma_depth(code: Seq<char>, depth: nat, open: char)
    requires
        is_opener(open),
        depth >= 1,
    ensures
        match depth_after(code, depth, open) {
            Some(now) => {
                &&& now >= 1
                &&& now == depth + count_of(code, open) - count_of(code, closer(open))
                &&& forall|p: int|
                    0 <= p <= code.len() ==> depth + count_of(#[trigger] code.take(p), open)
                        - count_of(code.take(p), closer(open)) >= 1
            },
            None => exists|p: int|
                0 < p <= code.len() && depth + count_of(#[trigger] code.take(p), open) - count_of(
                    code.take(p),
                    closer(open),
                ) == 0,
        },
    decreases code.len(),
{
    let close = closer(open);
    lemma_count_none(open);
    lemma_count_none(close);
    if code.len() == 0 {
        assert forall|p: int| 0 <= p <= code.len() implies depth + count_of(
            #[trigger] code.take(p),
            open,
        ) - count_of(code.take(p), close) >= 1 by {
            assert(code.take(p) =~= seq![]);
        }
        assert(code =~= seq![]);
    } else {
        let rest = code.skip(1);
        let one = seq![code[0]];
        lemma_count_one(code[0], open);
        lemma_count_one(code[0], close);
        assert forall|p: int| 1 <= p <= code.len() implies #[trigger] code.take(p) == one
            + rest.take(p - 1) by {
            assert(code.take(p) =~= one + rest.take(p - 1));
        }
        if code[0] == close && depth == 1 {
            assert(rest.take(0) =~= seq![]);
            assert(code.take(1) == one + rest.take(0));
            assert(one + rest.take(0) =~= one);
            assert(depth + count_of(code.take(1), open) - count_of(code.take(1), close) == 0);
        } else {
            let next = if code[0] == open {
                depth + 1
            } else if code[0] == close {
                (depth - 1) as nat
            } else {
                depth
            };
            lemma_depth(rest, next, open);
            assert forall|p: int| 1 <= p <= code.len() implies count_of(
                #[trigger] code.take(p),
                open,
            ) == count_of(one, open) + count_of(rest.take(p - 1), open) && count_of(
                code.take(p),
                close,
            ) == count_of(one, close) + count_of(rest.take(p - 1), close) by {
                lemma_count_concat(one, rest.take(p - 1), open);
                lemma_count_concat(one, rest.take(p - 1), close);
            }
            match depth_after(rest, next, open) {
                Some(now) => {
                    assert(code =~= one + rest);
                    lemma_count_concat(one, rest, open);
                    lemma_count_concat(one, rest, close);
                    assert forall|p: int| 0 <= p <= code.len() implies depth + count_of(
                        #[trigger] code.take(p),
                        open,
                    ) - count_of(code.take(p), close) >= 1 by {
                        if p > 0 {
                            let q = rest.take(p - 1);
                            assert(next + count_of(q, open) - count_of(q, close) >= 1);
                        } else {
                            assert(code.take(0) =~= seq![]);
                        }
                    }
                },
                None => {
                    let p = choose|p: int|
                        0 < p <= rest.len() && next + count_of(#[trigger] rest.take(p), open)
                            - count_of(rest.take(p), close) == 0;
                    assert(depth + count_of(code.take(p + 1), open) - count_of(
                        code.take(p + 1),
                        close,
                    ) == 0);
                },
            }
        }
    }
}

/// A balance of `depth` before the code is the same as brackets in front of it.
proof fn lemma_closed_in_concat(a: Seq<char>, b: Seq<char>, open: char, close: char)
    requires
        !is_closed_in(a, open, close),
    ensures
        is_closed_in(a + b, open, close) <==> exists|p: int|
            0 < p <= b.len() && count_of(a, open) - count_of(a, close) + count_of(
                #[trigger] b.take(p),
                open,
            ) - count_of(b.take(p), close) == 0,
{
    let s = a + b;
    if is_closed_in(s, open, close) {
        let p = choose|p: int|
            0 < p <= s.len() && count_of(#[trigger] s.take(p), open) == count_of(
                s.take(p),
                close,
            );
        if p <= a.len() {
            assert(s.take(p) =~= a.take(p));
            assert(is_closed_in(a, open, close));
        } else {
            assert(s.take(p) =~= a + b.take(p - a.len()));
            lemma_count_concat(a, b.take(p - a.len()), open);
            lemma_count_concat(a, b.take(p - a.len()), close);
        }
    }
    if exists|p: int|
        0 < p <= b.len() && count_of(a, open) - count_of(a, close) + count_of(
            #[trigger] b.take(p),
            open,
        ) - count_of(b.take(p), close) == 0 {
        let p = choose|p: int|
            0 < p <= b.len() && count_of(a, open) - count_of(a, close) + count_of(
                #[trigger] b.take(p),
                open,
            ) - count_of(b.take(p), close) == 0;
        assert(s.take(a.len() + p) =~= a + b.take(p));
        lemma_count_concat(a, b.take(p), open);
        lemma_count_concat(a, b.take(p), close);
        assert(count_of(s.take(a.len() + p), open) == count_of(s.take(a.len() + p), close));
    }
}

proof fn lemma_code_step(lines: Seq<Seq<char>>, line: int, to: int, head: Seq<char>)
    requires
        line < to,
    ensures
        head + code_between(lines, line, to) == head + code_between(lines, line, to - 1) + code_of(
            lines[to - 1],
        ),
{
    assert(head + code_between(lines, line, to) =~= head + code_between(lines, line, to - 1)
        + code_of(lines[to - 1]));
}

proof fn lemma_closing(
    lines: Seq<Seq<char>>,
    line: nat,
    from: nat,
    head: Seq<char>,
    depth: nat,
    open: char,
)
    requires
        is_opener(open),
        line <= from <= lines.len(),
        depth >= 1,
        ({
            let code = head + code_between(lines, line as int, from as int);
            &&& !is_closed_in(code, open, closer(open))
            &&& depth == count_of(code, open) - count_of(code, closer(open))
        }),
    ensures
        match closing_line(lines, from, depth, open) {
            Some(end) => {
                &&& from < end <= lines.len()
                &&& is_closed_in(
                    head + code_between(lines, line as int, end as int),
                    open,
                    closer(open),
                )
                &&& forall|m: int|
                    from <= m < end ==> !is_closed_in(
                        head + #[trigger] code_between(lines, line as int, m),
                        open,
                        closer(open),
                    )
            },
            None => forall|m: int|
                from <= m <= lines.len() ==> !is_closed_in(
                    head + #[trigger] code_between(lines, line as int, m),
                    open,
                    closer(open),
                ),
        },
    decreases lines.len() - from,
{
    let close = closer(open);
    if from < lines.len() {
        let code = head + code_between(lines, line as int, from as int);
        let b = code_of(lines[from as int]);
        lemma_code_step(lines, line as int, from as int + 1, head);
        lemma_depth(b, depth, open);
        lemma_closed_in_concat(code, b, open, close);
        match depth_after(b, depth, open) {
            None => {},
            Some(now) => {
                lemma_count_concat(code, b, open);
                lemma_count_concat(code, b, close);
                if is_closed_in(code + b, open, close) {
                    let p = choose|p: int|
                        0 < p <= b.len() && count_of(code, open) - count_of(code, close) + count_of(
                            #[trigger] b.take(p),
                            open,
                        ) - count_of(b.take(p), close) == 0;
                    assert(depth + count_of(b.take(p), open) - count_of(b.take(p), close) >= 1);
                }
                lemma_closing(lines, line, from + 1, head, now, open);
            },
        }
    }
}

/// A bracket is closed where as many of its kind are closed as were opened from it on, and on no
/// other line; what stands in quotes does not count.
pub proof fn law_bracket_is_closed_where_balanced(
    lines: Seq<Seq<char>>,
    line: nat,
    at: int,
    end: nat,
)
    requires
        1 <= line <= lines.len(),
        0 <= at < code_of(lines[line - 1]).len(),
    ensures
        bracket_end(lines, line, at) == Some(end) <==> closes_on(
            lines,
            line as int,
            at,
            end as int,
        ),
{
    let code = code_of(lines[line - 1]);
    let open = code[at];
    let close = closer(open);
    let head = code.skip(at);
    if is_opener(open) {
        let rest = head.skip(1);
        assert(head[0] == open);
        lemma_depth(rest, 1, open);
        let one = seq![open];
        lemma_count_one(open, open);
        lemma_count_one(open, close);
        assert(head =~= one + rest);
        assert(!is_closed_in(one, open, close)) by {
            if is_closed_in(one, open, close) {
                let p = choose|p: int|
                    0 < p <= one.len() && count_of(#[trigger] one.take(p), open) == count_of(
                        one.take(p),
                        close,
                    );
                assert(one.take(p) =~= one);
            }
        }
        lemma_closed_in_concat(one, rest, open, close);
        assert(head + code_between(lines, line as int, line as int) =~= head);
        match depth_after(rest, 1, open) {
            None => {
                let p = choose|p: int|
                    0 < p <= rest.len() && 1 + count_of(#[trigger] rest.take(p), open) - count_of(
                        rest.take(p),
                        close,
                    ) == 0;
                assert(count_of(one, open) - count_of(one, close) + count_of(rest.take(p), open)
                    - count_of(rest.take(p), close) == 0);
                assert(is_closed_in(head, open, close));
                if line < end {
                    lemma_stays_closed(lines, line as int, end - 1, head, open, close);
                }
            },
            Some(depth) => {
                lemma_count_concat(one, rest, open);
                lemma_count_concat(one, rest, close);
                if is_closed_in(head, open, close) {
                    let p = choose|p: int|
                        0 < p <= rest.len() && count_of(one, open) - count_of(one, close)
                            + count_of(#[trigger] rest.take(p), open) - count_of(
                            rest.take(p),
                            close,
                        ) == 0;
                    assert(1 + count_of(rest.take(p), open) - count_of(rest.take(p), close) >= 1);
                }
                lemma_closing(lines, line, line, head, depth, open);
                if closes_on(lines, line as int, at, end as int) {
                    let e = closing_line(lines, line, depth, open);
                    assert(is_closed_in(
                        head + code_between(lines, line as int, end as int),
                        open,
                        close,
                    ));
                    if let Some(e) = e {
                        if e < end {
                            lemma_still_closed(lines, line as int, e as int, end - 1, head, open, close);
                        }
                    }
                }
                if let Some(e) = closing_line(lines, line, depth, open) {
                    assert(!is_closed_in(
                        head + code_between(lines, line as int, e - 1),
                        open,
                        close,
                    ));
                    assert(are_partners(open, close));
                }
            },
        }
    }
}

proof fn lemma_stays_closed(
    lines: Seq<Seq<char>>,
    line: int,
    to: int,
    head: Seq<char>,
    open: char,
    close: char,
)
    requires
        line <= to,
        is_closed_in(head, open, close),
    ensures
        is_closed_in(head + code_between(lines, line, to), open, close),
{
    let s = head + code_between(lines, line, to);
    let p = choose|p: int|
        0 < p <= head.len() && count_of(#[trigger] head.take(p), open) == count_of(
            head.take(p),
            close,
        );
    assert(s.take(p) =~= head.take(p));
}

proof fn lemma_still_closed(
    lines: Seq<Seq<char>>,
    line: int,
    e: int,
    to: int,
    head: Seq<char>,
    open: char,
    close: char,
)
    requires
        line <= e <= to,
        is_closed_in(head + code_between(lines, line, e), open, close),
    ensures
        is_closed_in(head + code_between(lines, line, to), open, close),
    decreases to - e,
{
    if e < to {
        lemma_still_closed(lines, line, e, to - 1, head, open, close);
        lemma_code_step(lines, line, to, head);
        let a = head + code_between(lines, line, to - 1);
        let s = a + code_of(lines[to - 1]);
        let p = choose|p: int|
            0 < p <= a.len() && count_of(#[trigger] a.take(p), open) == count_of(a.take(p), close);
        assert(s.take(p) =~= a.take(p));
    }
}

/// A line that opens no section of Markdown takes in the lines up to the one that closes a bracket
/// of it: of the brackets of the line that are closed on a later one, the first.
pub proof fn law_bracket_takes_in_its_lines(
    path: Seq<char>,
    text: Seq<char>,
    line: nat,
    at: int,
    end: nat,
)
    requires
        1 <= line <= lines_of(text).len(),
        0 <= at < code_of(lines_of(text)[line - 1]).len(),
        is_markdown_path(path) ==> !is_heading_to(lines_of(text)[line - 1], 6),
        closes_on(lines_of(text), line as int, at, end as int),
        forall|i: int, e: int|
            0 <= i < at ==> !(#[trigger] closes_on(lines_of(text), line as int, i, e)),
    ensures
        block_span(path, text, line) == Some((line, end)),
{
    let lines = lines_of(text);
    law_bracket_is_closed_where_balanced(lines, line, at, end);
    law_outermost_bracket_decides(lines, line);
    if let Some(level) = heading(lines[line - 1]) {
        law_headings_are_read(lines[line - 1], level);
        assert(is_heading(lines[line - 1], level as int));
    }
    match brace_span(lines, line) {
        None => {
            assert(bracket_end(lines, line, at) is Some);
        },
        Some((start, e)) => {
            let k = choose|k: int|
                {
                    &&& 0 <= k < code_of(lines[line - 1]).len()
                    &&& #[trigger] bracket_end(lines, line, k) == Some(e)
                    &&& forall|i: int| 0 <= i < k ==> bracket_end(lines, line, i) is None
                };
            law_bracket_is_closed_where_balanced(lines, line, k, e);
            if k < at {
                assert(closes_on(lines, line as int, k, e as int));
            } else if at < k {
                assert(bracket_end(lines, line, at) is None);
            }
        },
    }
}

// ---------------------------------------------------------------------------------------------
// Quotes

spec fn resumed(scan: CodeScan, s: Seq<char>) -> CodeScan
    decreases s.len(),
{
    if s.len() == 0 {
        scan
    } else {
        scan_char(resumed(scan, s.drop_last()), s.last())
    }
}

proof fn lemma_resumed(a: Seq<char>, b: Seq<char>)
    ensures
        scan_line(a + b) == resumed(scan_line(a), b),
    decreases b.len(),
{
    if b.len() > 0 {
        lemma_resumed(a, b.drop_last());
        assert((a + b).drop_last() =~= a + b.drop_last());
    } else {
        assert(a + b =~= a);
    }
}

proof fn lemma_resumed_cons(scan: CodeScan, c: char, s: Seq<char>)
    ensures
        resumed(scan, seq![c] + s) == resumed(scan_char(scan, c), s),
    decreases s.len(),
{
    let all = seq![c] + s;
    if s.len() > 0 {
        lemma_resumed_cons(scan, c, s.drop_last());
        assert(all.drop_last() =~= seq![c] + s.drop_last());
    } else {
        assert(all.drop_last() =~= seq![]);
        assert(all.last() == c);
        reveal_with_fuel(resumed, 2);
    }
}

proof fn lemma_resumed_code(scan: CodeScan, s: Seq<char>)
    ensures
        ({
            let fresh = resumed(CodeScan { code: seq![], ..scan }, s);
            let now = resumed(scan, s);
            &&& now.code == scan.code + fresh.code
            &&& now.quote == fresh.quote
            &&& now.escaped == fresh.escaped
        }),
    decreases s.len(),
{
    if s.len() > 0 {
        lemma_resumed_code(scan, s.drop_last());
        let fresh = resumed(CodeScan { code: seq![], ..scan }, s);
        assert(resumed(scan, s).code =~= scan.code + fresh.code);
    } else {
        assert(scan.code + Seq::<char>::empty() =~= scan.code);
    }
}

proof fn lemma_plain_code(a: Seq<char>)
    requires
        forall|i: int| 0 <= i < a.len() ==> !is_quote(#[trigger] a[i]),
    ensures
        scan_line(a) == (CodeScan { quote: None, escaped: false, code: a }),
    decreases a.len(),
{
    if a.len() > 0 {
        let front = a.drop_last();
        assert forall|i: int| 0 <= i < front.len() implies !is_quote(#[trigger] front[i]) by {
            assert(front[i] == a[i]);
        }
        lemma_plain_code(front);
        assert(a.last() == a[a.len() - 1]);
        assert(a =~= front.push(a.last()));
    } else {
        assert(a =~= seq![]);
    }
}

/// Without quotes a line is code. A double quote, a single quote or a backtick opens quoted text,
/// in which no character is code: any other than the same quote goes on with it, one behind a
/// backslash in any case unless the quotes are single, and the same quote ends it, behind which
/// there is code again.
pub proof fn law_quoted_text_is_no_code(a: Seq<char>, q: char, c: char, rest: Seq<char>)
    requires
        forall|i: int|
            0 <= i < a.len() ==> #[trigger] a[i] != '"' && a[i] != '\'' && a[i] != '`',
    ensures
        code_of(a) == a,
        q == '"' || q == '\'' || q == '`' ==> {
            &&& code_of(a + seq![q]) == a
            &&& code_of(a + seq![q, q] + rest) == a + code_of(rest)
            &&& c != q && (c != '\\' || q == '\'') ==> code_of(a + seq![q, c] + rest) == code_of(
                a + seq![q] + rest,
            )
            &&& q != '\'' ==> code_of(a + seq![q, '\\']) == a && code_of(
                a + seq![q, '\\', c] + rest,
            ) == code_of(a + seq![q] + rest)
        },
{
    lemma_plain_code(a);
    if q == '"' || q == '\'' || q == '`' {
        let start = scan_line(a);
        let open = CodeScan { quote: Some(q), escaped: false, code: a };
        let none = Seq::<char>::empty();
        assert(seq![q] + none =~= seq![q]);
        lemma_resumed(a, seq![q]);
        lemma_resumed_cons(start, q, none);
        assert(scan_line(a + seq![q]) == open);
        // the closing quote
        let tail = seq![q] + rest;
        assert(a + seq![q, q] + rest =~= a + seq![q] + tail);
        lemma_resumed(a + seq![q], tail);
        lemma_resumed_cons(open, q, rest);
        lemma_resumed_code(CodeScan { quote: None, escaped: false, code: a }, rest);
        lemma_resumed(none, rest);
        assert(none + rest =~= rest);
        // a quoted character
        lemma_resumed(a + seq![q], rest);
        let more = seq![c] + rest;
        assert(a + seq![q, c] + rest =~= a + seq![q] + more);
        lemma_resumed(a + seq![q], more);
        lemma_resumed_cons(open, c, rest);
        // an escape
        let slash = seq!['\\'];
        assert(a + seq![q, '\\'] =~= a + seq![q] + slash);
        assert(slash =~= slash + none);
        lemma_resumed(a + seq![q], slash);
        lemma_resumed_cons(open, '\\', none);
        let escape = slash + more;
        assert(a + seq![q, '\\', c] + rest =~= a + seq![q] + escape);
        lemma_resumed(a + seq![q], escape);
        lemma_resumed_cons(open, '\\', more);
        lemma_resumed_cons(CodeScan { escaped: true, ..open }, c, rest);
    }
}

// ---------------------------------------------------------------------------------------------
// Block edits

/// An edit on a block comes to edits on the lines of the block: rows or a register in place of
/// them, a cut of them, rows or a register after the last of them. What it was resolved to is
/// noted.
pub proof fn law_block_edit_comes_to_its_lines(
    edits: Seq<EditView>,
    text: Seq<char>,
    path: Seq<char>,
    throw: bool,
    resolutions: Seq<BlockResolution>,
    warnings: Seq<Seq<char>>,
    anchor: Anchor,
    payloads: Seq<Seq<char>>,
    mode: BlockMode,
    register: Option<Seq<char>>,
    line_num: nat,
    index: nat,
    end: usize,
)
    requires
        block_run(edits, text, path, throw, resolutions, warnings).error is None,
        block_span(path, text, anchor.line as nat) == Some((anchor.line as nat, end as nat)),
    ensures
        ({
            let before = block_run(edits, text, path, throw, resolutions, warnings);
            let edit = EditView::Block { anchor, payloads, mode, register, line_num, index };
            let after = block_run(edits.push(edit), text, path, throw, resolutions, warnings);
            let last = Anchor { line: end };
            let range = ParsedRange { start: anchor, end: last };
            let new = match mode {
                BlockMode::Replace => match register {
                    None => crate::apply::replacing(
                        anchor.line,
                        end,
                        payloads,
                        line_num,
                        before.next,
                    ),
                    Some(name) => seq![
                        EditView::Paste {
                            at: PasteTarget::Span { range },
                            register,
                            line_num,
                            index: before.next,
                            block_start: None,
                        },
                    ],
                },
                BlockMode::Cut => seq![
                    EditView::Cut { range, register, line_num, index: before.next },
                ] + deletes(anchor.line, end, line_num, before.next + 1),
                BlockMode::InsertAfter => inserts(
                    payloads,
                    Cursor::AfterAnchor { anchor: last },
                    line_num,
                    before.next,
                    false,
                    Some(anchor.line),
                ),
                BlockMode::PasteAfter => seq![
                    EditView::Paste {
                        at: PasteTarget::Gap { cursor: Cursor::AfterAnchor { anchor: last } },
                        register,
                        line_num,
                        index: before.next,
                        block_start: Some(anchor.line),
                    },
                ],
            };
            &&& after.error is None
            &&& after.out == before.out + new
            &&& after.next == before.next + new.len()
            &&& after.warnings == before.warnings
            &&& after.resolutions == before.resolutions.push(
                BlockResolution { line: anchor.line, start: anchor.line, end },
            )
        }),
{
    let edit = EditView::Block { anchor, payloads, mode, register, line_num, index };
    assert(edits.push(edit).drop_last() =~= edits);
}

/// An edit on a line that opens no block: rows or a register that were to go after the block go
/// after that line, with a warning; any other is refused, or dropped where that is asked for. Edits
/// that name no block stay as they are.
pub proof fn law_edit_without_block(
    edits: Seq<EditView>,
    text: Seq<char>,
    path: Seq<char>,
    throw: bool,
    resolutions: Seq<BlockResolution>,
    warnings: Seq<Seq<char>>,
    edit: EditView,
)
    requires
        block_run(edits, text, path, throw, resolutions, warnings).error is None,
        edit matches EditView::Block { anchor, .. } ==> block_span(
            path,
            text,
            anchor.line as nat,
        ) is None,
    ensures
        ({
            let before = block_run(edits, text, path, throw, resolutions, warnings);
            let after = block_run(edits.push(edit), text, path, throw, resolutions, warnings);
            &&& after.resolutions == before.resolutions
            &&& match edit {
                EditView::Block { anchor, payloads, mode, register, line_num, .. } => {
                    let line = decimal(anchor.line as nat);
                    match mode {
                        BlockMode::InsertAfter => {
                            &&& after.error is None
                            &&& after.out == before.out + inserts(
                                payloads,
                                Cursor::AfterAnchor { anchor },
                                line_num,
                                before.next,
                                false,
                                None,
                            )
                            &&& after.warnings == before.warnings.push(
                                "PUT >"@ + line + "*: could not resolve block; lowered to PUT >"@
                                    + line,
                            )
                        },
                        BlockMode::PasteAfter => {
                            &&& after.error is None
                            &&& after.out == before.out.push(
                                EditView::Paste {
                                    at: PasteTarget::Gap {
                                        cursor: Cursor::AfterAnchor { anchor },
                                    },
                                    register,
                                    line_num,
                                    index: before.next,
                                    block_start: None,
                                },
                            )
                            &&& after.warnings == before.warnings.push(
                                "PUT >"@ + line + "*: could not resolve block; lowered to PUT >"@
                                    + line,
                            )
                        },
                        _ => {
                            &&& after.out == before.out
                            &&& after.warnings == before.warnings
                            &&& after.error == if throw {
                                Some(
                                    "line "@ + decimal(line_num) + ": "@
                                        + "could not resolve block opening at "@ + line,
                                )
                            } else {
                                None
                            }
                        },
                    }
                },
                _ => after.error is None && after.out == before.out.push(edit) && after.warnings
                    == before.warnings,
            }
        }),
{
    let before = block_run(edits, text, path, throw, resolutions, warnings);
    assert(edits.push(edit).drop_last() =~= edits);
    let after = block_run(edits.push(edit), text, path, throw, resolutions, warnings);
    if let EditView::Block { anchor, payloads, mode, register, line_num, .. } = edit {
        if mode == BlockMode::PasteAfter {
            assert(after.out =~= before.out.push(
                EditView::Paste {
                    at: PasteTarget::Gap { cursor: Cursor::AfterAnchor { anchor } },
                    register,
                    line_num,
                    index: before.next,
                    block_start: None,
                },
            ));
        }
    }
}

} // verus!
