//! What becomes of rows that are not marked: rows with a minus sign, rows copied with their line
//! numbers, and blank rows.

use crate::rows::{
    first_minus, is_bullet, is_decimal, is_exponent, is_float, is_literal, is_numbered_copy,
    may_strip, minus_resolved, past_marker, past_sign, prefixes_stripped, row_texts, unnumbered,
    unsigned, without_minus, without_number, RowView,
};
use crate::format::header_of;
use crate::language::{lemma_decimal_first, lemma_plain_line};
use crate::notation::{
    all_meant, is_proper, law_header_is_read, lemma_fed_push, lemma_meant, lemma_ops_fed, meant,
    patch_lines, written, OpText,
};
use crate::parse::{
    body_finished, bodyless, flushed, line_fed, lines_fed, literal_fed, op_fed, raw_fed, BodyView,
};
use crate::scan::OpView;
use crate::text::{
    all_of, class_has, decimal, is_blank, is_digit, is_white, law_decimal_round_trip, leading,
    lemma_leading, lemma_leading_is, lemma_trailing, lemma_trailing_is, starts_with_char, trimmed,
    trimmed_end, trimmed_start, upper, uppercase, CharClass,
};
use vstd::prelude::*;

verus! {

/// An item of a Markdown list: a minus sign and a space, behind white space or not.
pub open spec fn is_item(text: Seq<char>) -> bool {
    exists|n: int|
        0 <= n && n + 1 < text.len() && #[trigger] is_blank(text.take(n)) && text[n] == '-'
            && text[n + 1] == ' '
}

proof fn lemma_item(text: Seq<char>)
    ensures
        is_bullet(text) <==> is_item(text),
{
    reveal_strlit("- ");
    let n = leading(text, CharClass::White);
    lemma_leading(text, CharClass::White);
    let t = trimmed_start(text, CharClass::White);
    if is_bullet(text) {
        assert(t.subrange(0, 2) == "- "@);
        assert(t[0] == t.subrange(0, 2)[0]);
        assert(t[1] == t.subrange(0, 2)[1]);
        assert forall|i: int| 0 <= i < n implies is_white(#[trigger] text.take(n as int)[i]) by {
            assert(class_has(CharClass::White, text[i]));
        }
        assert(is_blank(text.take(n as int)));
    }
    if is_item(text) {
        let m = choose|m: int|
            0 <= m && m + 1 < text.len() && #[trigger] is_blank(text.take(m)) && text[m] == '-'
                && text[m + 1] == ' ';
        assert forall|i: int| 0 <= i < m implies class_has(CharClass::White, #[trigger] text[i]) by {
            assert(is_white(text.take(m)[i]));
        }
        lemma_leading_is(text, CharClass::White, m as nat);
        assert(t.subrange(0, 2) =~= "- "@);
    }
}

proof fn lemma_first_minus(rows: Seq<RowView>)
    ensures
        match first_minus(rows) {
            Some(row) => exists|i: int|
                0 <= i < rows.len() && #[trigger] rows[i] == row && row.minus && forall|j: int|
                    0 <= j < i ==> !(#[trigger] rows[j]).minus,
            None => forall|i: int| 0 <= i < rows.len() ==> !(#[trigger] rows[i]).minus,
        },
    decreases rows.len(),
{
    if rows.len() > 0 {
        let front = rows.drop_last();
        lemma_first_minus(front);
        match first_minus(front) {
            Some(row) => {
                let i = choose|i: int|
                    0 <= i < front.len() && #[trigger] front[i] == row && row.minus && forall|
                        j: int,
                    |
                        0 <= j < i ==> !(#[trigger] front[j]).minus;
                assert(rows[i] == row);
                assert forall|j: int| 0 <= j < i implies !(#[trigger] rows[j]).minus by {
                    assert(front[j] == rows[j]);
                }
            },
            None => {
                assert forall|j: int| 0 <= j < front.len() implies !(#[trigger] rows[j]).minus by {
                    assert(front[j] == rows[j]);
                }
                assert(rows[rows.len() - 1] == rows.last());
            },
        }
    }
}

proof fn lemma_without_minus(rows: Seq<RowView>)
    ensures
        without_minus(rows) == rows.filter(|r: RowView| !r.minus),
    decreases rows.len(),
{
    reveal(Seq::filter);
    if rows.len() > 0 {
        lemma_without_minus(rows.drop_last());
    }
}

/// Rows with a minus sign, where there are any: they stay where all of them are list items and, if
/// there are marked rows, one of those is a list item too. Else they are dropped as the old side of
/// a diff where there are marked rows and not all are list items, and refused in what is left, with
/// the number of the first. Without such rows nothing happens.
pub proof fn law_minus_rows(rows: Seq<RowView>)
    ensures
        ({
            let some = exists|i: int| 0 <= i < rows.len() && (#[trigger] rows[i]).minus;
            let items = forall|i: int|
                0 <= i < rows.len() && (#[trigger] rows[i]).minus ==> is_item(rows[i].text);
            let marked = exists|i: int| 0 <= i < rows.len() && !(#[trigger] rows[i]).bare;
            let marked_item = exists|i: int|
                0 <= i < rows.len() && !(#[trigger] rows[i]).bare && is_item(rows[i].text);
            match minus_resolved(rows) {
                Ok(kept) => if !some || (items && (!marked || marked_item)) {
                    kept == rows
                } else {
                    marked && !items && kept == rows.filter(|r: RowView| !r.minus)
                },
                Err(message) => some && items && marked && !marked_item || (some && !items
                    && !marked),
            }
        }),
        minus_resolved(rows) matches Err(message) ==> exists|i: int|
            0 <= i < rows.len() && (#[trigger] rows[i]).minus && (forall|j: int|
                0 <= j < i ==> !(#[trigger] rows[j]).minus) && message == "line "@ + decimal(
                rows[i].line_num,
            ) + ": "@ + "body rows starting with `-` are not hashline; use `+` for final content"@,
{
    lemma_first_minus(rows);
    lemma_without_minus(rows);
    assert forall|i: int| 0 <= i < rows.len() implies is_bullet((#[trigger] rows[i]).text)
        == is_item(rows[i].text) by {
        lemma_item(rows[i].text);
    }
    if let Some(row) = first_minus(rows) {
        let i = choose|i: int|
            0 <= i < rows.len() && #[trigger] rows[i] == row && row.minus && forall|j: int|
                0 <= j < i ==> !(#[trigger] rows[j]).minus;
        assert(rows[i].minus);
    }
}

// ---------------------------------------------------------------------------------------------
// Copied line numbers

/// What may stand before a copied line number: nothing, an arrow, or a sign, with a space behind
/// it.
pub open spec fn is_mark(mark: Seq<char>) -> bool {
    ||| mark == Seq::<char>::empty()
    ||| mark == seq!['>', '>', '>', ' ']
    ||| mark == seq!['>', '>', ' ']
    ||| mark == seq!['+', ' ']
    ||| mark == seq!['-', ' ']
    ||| mark == seq!['*', ' ']
}

/// A line number with a colon or a bar behind it, behind white space, markers or a sign, is taken
/// off a row, and only that.
pub proof fn law_copied_number_is_taken_off(
    pad: Seq<char>,
    mark: Seq<char>,
    n: nat,
    bar: char,
    text: Seq<char>,
)
    requires
        is_blank(pad),
        is_mark(mark),
        n > 0,
        bar == ':' || bar == '|',
    ensures
        unnumbered(pad + mark + decimal(n) + seq![bar] + text) == Some(text),
{
    let s = decimal(n) + (seq![bar] + text);
    lemma_number_front(n, bar, text);
    lemma_past_marks(mark, s);
    lemma_mark_first(mark, s);
    lemma_past_padding(pad, mark + s);
    assert(pad + mark + decimal(n) + seq![bar] + text =~= pad + (mark + s));
}

proof fn lemma_mark_first(mark: Seq<char>, s: Seq<char>)
    requires
        is_mark(mark),
        s.len() > 0,
        is_digit(s[0]),
    ensures
        (mark + s).len() > 0,
        !is_white((mark + s)[0]),
{
    if mark.len() == 0 {
        assert(mark + s =~= s);
    } else {
        assert((mark + s)[0] == mark[0]);
    }
}

proof fn lemma_past_padding(pad: Seq<char>, t: Seq<char>)
    requires
        is_blank(pad),
        t.len() > 0,
        !is_white(t[0]),
    ensures
        trimmed_start(pad + t, CharClass::White) == t,
{
    let line = pad + t;
    assert forall|i: int| 0 <= i < pad.len() implies class_has(CharClass::White, #[trigger] line[i]) by {
        assert(line[i] == pad[i]);
    }
    assert(line[pad.len() as int] == t[0]);
    lemma_leading_is(line, CharClass::White, pad.len());
    assert(line.skip(pad.len() as int) =~= t);
}

proof fn lemma_number_front(n: nat, bar: char, text: Seq<char>)
    requires
        n > 0,
        bar == ':' || bar == '|',
    ensures
        ({
            let d = decimal(n);
            let rest = seq![bar] + text;
            let s = d + rest;
            &&& d.len() > 0
            &&& leading(s, CharClass::Digit) == d.len()
            &&& s.skip(d.len() as int) == rest
            &&& rest[0] == bar
            &&& rest.skip(1) == text
            &&& s[0] != '0'
            &&& is_digit(s[0])
        }),
{
    let d = decimal(n);
    let rest = seq![bar] + text;
    let s = d + rest;
    lemma_decimal_first(n);
    law_decimal_round_trip(n);
    assert forall|i: int| 0 <= i < d.len() implies class_has(CharClass::Digit, #[trigger] s[i]) by {
        assert(s[i] == d[i]);
    }
    assert(s[d.len() as int] == bar);
    lemma_leading_is(s, CharClass::Digit, d.len());
    assert(s.skip(d.len() as int) =~= rest);
    assert(rest.skip(1) =~= text);
    assert(s[0] == d[0]);
    assert(class_has(CharClass::Digit, s[0]));
}

proof fn lemma_past_marks(mark: Seq<char>, s: Seq<char>)
    requires
        s.len() > 0,
        is_digit(s[0]),
        is_mark(mark),
    ensures
        past_sign(past_marker(past_marker(mark + s, ">>>"@), ">>"@)) == s,
{
    reveal_strlit(">>>");
    reveal_strlit(">>");
    let t = mark + s;
    lemma_not_marked(s);
    if mark.len() == 0 {
        assert(t =~= s);
    } else {
        let m = (mark.len() - 1) as int;
        let spaced = seq![' '] + s;
        assert(t.skip(m) =~= spaced);
        assert(spaced[1] == s[0]);
        lemma_leading_is(spaced, CharClass::White, 1);
        assert(spaced.skip(1) =~= s);
        if mark[0] == '>' {
            if mark.len() == 4 {
                assert(t.subrange(0, 3) =~= ">>>"@);
            } else {
                assert(t[2] == ' ');
                assert(!">>>"@.is_prefix_of(t)) by {
                    if ">>>"@.is_prefix_of(t) {
                        assert(t.subrange(0, 3)[2] == t[2]);
                    }
                }
                assert(t.subrange(0, 2) =~= ">>"@);
            }
        } else {
            assert(t[0] == mark[0]);
            assert(t[1] == ' ');
            lemma_not_arrow(t);
        }
    }
}

proof fn lemma_not_arrow(s: Seq<char>)
    requires
        s.len() > 0,
        s[0] != '>',
    ensures
        past_marker(past_marker(s, ">>>"@), ">>"@) == s,
{
    reveal_strlit(">>>");
    reveal_strlit(">>");
    if ">>>"@.is_prefix_of(s) {
        assert(s.subrange(0, 3)[0] == s[0]);
    }
    if ">>"@.is_prefix_of(s) {
        assert(s.subrange(0, 2)[0] == s[0]);
    }
}

proof fn lemma_not_marked(s: Seq<char>)
    requires
        s.len() > 0,
        is_digit(s[0]),
    ensures
        past_marker(s, ">>"@) == s,
        past_sign(past_marker(past_marker(s, ">>>"@), ">>"@)) == s,
        past_sign(s) == s,
{
    lemma_not_arrow(s);
    reveal_strlit(">>");
    if ">>"@.is_prefix_of(s) {
        assert(s.subrange(0, 2)[0] == s[0]);
    }
}

/// A row that begins as no number and no quoted text does.
pub open spec fn is_no_value(text: Seq<char>) -> bool {
    exists|n: int|
        0 <= n < text.len() && #[trigger] is_blank(text.take(n)) && {
            let c = text[n];
            !is_white(c) && c != '"' && c != '\'' && c != '+' && c != '-' && c != '.' && !('0' <= c
                <= '9') && c != 'i' && c != 'I' && c != 'n' && c != 'N' && c != ','
        }
}

proof fn lemma_no_value(text: Seq<char>)
    requires
        is_no_value(text),
    ensures
        !is_literal(text),
{
    let n = choose|n: int|
        0 <= n < text.len() && #[trigger] is_blank(text.take(n)) && {
            let c = text[n];
            !is_white(c) && c != '"' && c != '\'' && c != '+' && c != '-' && c != '.' && !('0' <= c
                <= '9') && c != 'i' && c != 'I' && c != 'n' && c != 'N' && c != ','
        };
    let c = text[n];
    assert forall|i: int| 0 <= i < n implies class_has(CharClass::White, #[trigger] text[i]) by {
        assert(is_white(text.take(n)[i]));
    }
    lemma_leading_is(text, CharClass::White, n as nat);
    let rest = trimmed_start(text, CharClass::White);
    assert(rest[0] == c);
    lemma_trailing(rest, CharClass::White);
    let t = trimmed(text);
    if t.len() == 0 {
        assert(class_has(CharClass::White, rest[0]));
    }
    assert(t[0] == c);
    lemma_no_float(t);
    let u = trimmed_end(t, CharClass::Comma);
    lemma_trailing(t, CharClass::Comma);
    if u.len() > 0 {
        assert(u[0] == c);
        lemma_no_float(u);
    } else {
        assert(class_has(CharClass::Comma, t[0]));
    }
}

proof fn lemma_no_float(t: Seq<char>)
    requires
        t.len() > 0,
        t[0] != '+' && t[0] != '-' && t[0] != '.' && !('0' <= t[0] <= '9') && t[0] != 'i' && t[0]
            != 'I' && t[0] != 'n' && t[0] != 'N',
    ensures
        !is_float(t),
{
    reveal_strlit("INF");
    reveal_strlit("INFINITY");
    reveal_strlit("NAN");
    let name = uppercase(t);
    assert(name[0] == upper(t[0]));
    assert(upper(t[0]) != 'I' && upper(t[0]) != 'N');
    lemma_leading_is(t, CharClass::Digit, 0);
    assert(t.skip(0) =~= t);
}

/// Rows that were all copied with their line numbers, and of which one is no mere value, lose the
/// numbers, and nothing else.
pub proof fn law_numbered_rows_lose_their_numbers(
    rows: Seq<RowView>,
    numbers: Seq<nat>,
    texts: Seq<Seq<char>>,
    k: int,
)
    requires
        rows.len() == numbers.len() == texts.len(),
        forall|i: int|
            0 <= i < rows.len() ==> (#[trigger] rows[i]).bare && numbers[i] > 0 && rows[i].text
                == decimal(numbers[i]) + seq![':'] + texts[i],
        0 <= k < rows.len(),
        is_no_value(texts[k]),
    ensures
        row_texts(prefixes_stripped(rows)) == texts,
{
    let none = Seq::<char>::empty();
    assert forall|i: int| 0 <= i < rows.len() implies unnumbered((#[trigger] rows[i]).text) == Some(
        texts[i],
    ) && may_strip(rows[i]) by {
        law_copied_number_is_taken_off(none, none, numbers[i], ':', texts[i]);
        assert(none + none + decimal(numbers[i]) + seq![':'] + texts[i] =~= rows[i].text);
        let t = rows[i].text;
        assert(t[decimal(numbers[i]).len() as int] == ':');
        assert(!is_blank(t)) by {
            if is_blank(t) {
                assert(is_white(t[decimal(numbers[i]).len() as int]));
            }
        }
    }
    lemma_no_value(texts[k]);
    assert(may_strip(rows[k]));
    assert(row_texts(prefixes_stripped(rows)) =~= texts);
}

/// Rows of which one was not copied with a number, or that are marked, stay as they are.
pub proof fn law_other_rows_are_kept(rows: Seq<RowView>, k: int)
    requires
        0 <= k < rows.len(),
        rows[k].bare,
        !is_blank(rows[k].text),
        unnumbered(rows[k].text) is None,
    ensures
        prefixes_stripped(rows) == rows,
{
    assert(may_strip(rows[k]));
}

// ---------------------------------------------------------------------------------------------
// Bare and blank rows

/// A line that is a row though nothing marks it: no header, no op, no mark, and no minus sign.
pub open spec fn is_bare_line(line: Seq<char>) -> bool {
    &&& line.len() > 0 ==> line[0] != '+'
    &&& header_of(line) is None
    &&& line != "*** Begin Patch"@ && line != "*** End Patch"@ && line != "*** Abort"@
    &&& !"PUT "@.is_prefix_of(line) && !"CUT "@.is_prefix_of(line) && !"MV "@.is_prefix_of(line)
    &&& trimmed(line) != "REM"@
    &&& !starts_with_char(trimmed_start(line, CharClass::White), '-')
}

/// The lines of rows of which some are marked with a plus sign and the others are bare.
pub open spec fn mixed_lines(rows: Seq<Seq<char>>, bare: Seq<bool>) -> Seq<Seq<char>> {
    Seq::new(
        rows.len(),
        |i: int|
            if bare[i] {
                rows[i]
            } else {
                seq!['+'] + rows[i]
            },
    )
}

spec fn mixed_rows(rows: Seq<Seq<char>>, bare: Seq<bool>, line_num: nat) -> Seq<RowView> {
    Seq::new(
        rows.len(),
        |i: int|
            RowView {
                text: rows[i],
                line_num: (line_num + i + 1) as nat,
                bare: bare[i],
                minus: false,
            },
    )
}

proof fn lemma_blank_line_fed(body: BodyView, line: Seq<char>, n: nat)
    requires
        is_blank(line),
    ensures
        line_fed(body, line, n) == raw_fed(body, line, n),
{
    reveal_strlit("PUT ");
    reveal_strlit("CUT ");
    reveal_strlit("MV ");
    reveal_strlit("REM");
    reveal_strlit("*** Begin Patch");
    reveal_strlit("*** End Patch");
    reveal_strlit("*** Abort");
    if line.len() > 0 {
        assert(is_white(line[0]));
        assert forall|i: int| 0 <= i < line.len() implies class_has(
            CharClass::White,
            #[trigger] line[i],
        ) by {}
        lemma_leading_is(line, CharClass::White, line.len());
        let none = line.skip(line.len() as int);
        assert(none =~= seq![]);
        lemma_trailing(none, CharClass::White);
        assert(trimmed(line).len() == 0);
        if "PUT "@.is_prefix_of(line) {
            assert(line.subrange(0, 4)[0] == line[0]);
        }
        if "CUT "@.is_prefix_of(line) {
            assert(line.subrange(0, 4)[0] == line[0]);
        }
        if "MV "@.is_prefix_of(line) {
            assert(line.subrange(0, 3)[0] == line[0]);
        }
    } else {
        lemma_leading_is(line, CharClass::White, 0);
        assert(line.skip(0) =~= line);
        lemma_trailing(line, CharClass::White);
    }
}

proof fn lemma_mixed_fed(
    before: Seq<Seq<char>>,
    t: OpText,
    bare: Seq<bool>,
    k: int,
    done: BodyView,
)
    requires
        is_proper(t),
        bare.len() == t.rows.len() > 0,
        !(bare[0] && is_blank(t.rows[0])),
        forall|i: int| 0 <= i < bare.len() && #[trigger] bare[i] ==> is_bare_line(t.rows[i]),
        0 <= k <= t.rows.len(),
        lines_fed(before) matches Ok(body) && flushed(body) == Ok::<BodyView, Seq<char>>(done),
        done.pending is None,
        done.file_op is None,
    ensures
        ({
            let line_num = before.len() + 1;
            let lines = seq![written(t.op)] + mixed_lines(t.rows, bare);
            lines_fed(before + lines.take(k + 1)) matches Ok(now) && now.edits == done.edits
                && now.file_op is None && (now.pending matches Some(p) && p.op == t.op
                && p.line_num == line_num && p.payloads + p.deferred == mixed_rows(
                t.rows,
                bare,
                line_num,
            ).take(k) && (k > 0 ==> p.payloads.len() > 0) && (k > 0 && !(bare[k - 1] && is_blank(
                t.rows[k - 1],
            )) ==> p.deferred.len() == 0) && (k == 0 ==> p.deferred.len() == 0))
        }),
    decreases k,
{
    let line_num = before.len() + 1;
    let lines = seq![written(t.op)] + mixed_lines(t.rows, bare);
    let all = mixed_rows(t.rows, bare, line_num);
    if k == 0 {
        assert(before + lines.take(1) =~= before.push(written(t.op)));
        lemma_fed_push(before, written(t.op));
        law_header_is_read(lines_fed(before)->Ok_0, t.op, line_num);
        let none = Seq::<RowView>::empty();
        assert(none + none =~= all.take(0));
    } else {
        lemma_mixed_fed(before, t, bare, k - 1, done);
        let so_far = before + lines.take(k);
        let row = t.rows[k - 1];
        let line = lines[k];
        assert(line == mixed_lines(t.rows, bare)[k - 1]);
        assert(before + lines.take(k + 1) =~= so_far.push(line));
        lemma_fed_push(so_far, line);
        assert(so_far.len() + 1 == line_num + k);
        let body = lines_fed(so_far)->Ok_0;
        let p = body.pending->0;
        let had = p.payloads + p.deferred;
        assert(bodyless(t.op) is None);
        assert(all.take(k) =~= all.take(k - 1).push(all[k - 1]));
        if bare[k - 1] {
            assert(is_bare_line(row));
            if is_blank(row) {
                lemma_blank_line_fed(body, line, so_far.len() + 1);
                assert(p.payloads + p.deferred.push(all[k - 1]) =~= had.push(all[k - 1]));
            } else {
                assert(row.len() > 0) by {
                    if row.len() == 0 {
                        assert(is_blank(row));
                    }
                }
                assert(had.push(all[k - 1]) + Seq::<RowView>::empty() =~= had.push(all[k - 1]));
            }
        } else {
            assert(line == seq!['+'] + row);
            assert(line[0] == '+');
            lemma_plain_line(line);
            assert(line.skip(1) =~= row);
            assert(had.push(all[k - 1]) + Seq::<RowView>::empty() =~= had.push(all[k - 1]));
        }
    }
}

proof fn lemma_blank_tail(lines: Seq<Seq<char>>, tail: Seq<Seq<char>>)
    requires
        lines_fed(lines) matches Ok(body) && body.pending is Some,
        forall|i: int| 0 <= i < tail.len() ==> is_blank(#[trigger] tail[i]),
    ensures
        ({
            let body = lines_fed(lines)->Ok_0;
            lines_fed(lines + tail) matches Ok(now) && now.edits == body.edits && now.file_op
                == body.file_op && now.warnings == body.warnings && (now.pending matches Some(p)
                && p.op == body.pending->0.op && p.line_num == body.pending->0.line_num
                && p.payloads == body.pending->0.payloads)
        }),
    decreases tail.len(),
{
    if tail.len() == 0 {
        assert(lines + tail =~= lines);
    } else {
        let less = tail.drop_last();
        assert forall|i: int| 0 <= i < less.len() implies is_blank(#[trigger] less[i]) by {
            assert(less[i] == tail[i]);
        }
        lemma_blank_tail(lines, less);
        assert(lines + tail =~= (lines + less).push(tail.last()));
        assert(is_blank(tail[tail.len() - 1]));
        lemma_fed_push(lines + less, tail.last());
        lemma_blank_line_fed(
            lines_fed(lines + less)->Ok_0,
            tail.last(),
            (lines + less).len() + 1,
        );
    }
}

/// Rows that are not marked are rows all the same: under an op that takes rows they are taken as
/// they are, in their place among the marked ones, unless all of them were copied with line
/// numbers. Blank lines between rows are rows, and blank lines behind the last row are not.
pub proof fn law_bare_rows_are_taken(
    ops: Seq<OpText>,
    t: OpText,
    bare: Seq<bool>,
    tail: Seq<Seq<char>>,
    streaming: bool,
)
    requires
        forall|i: int| 0 <= i < ops.len() ==> is_proper(#[trigger] ops[i]),
        is_proper(t),
        bare.len() == t.rows.len() > 0,
        !(bare[0] && is_blank(t.rows[0])),
        !(bare.last() && is_blank(t.rows.last())),
        forall|i: int| 0 <= i < bare.len() && #[trigger] bare[i] ==> is_bare_line(t.rows[i]),
        (forall|i: int|
            0 <= i < bare.len() && #[trigger] bare[i] ==> is_blank(t.rows[i])) || exists|i: int|
            0 <= i < bare.len() && #[trigger] bare[i] && !is_blank(t.rows[i]) && unnumbered(
                t.rows[i],
            ) is None,
        forall|i: int| 0 <= i < tail.len() ==> is_blank(#[trigger] tail[i]),
    ensures
        ({
            let before = patch_lines(ops);
            lines_fed(
                before + (seq![written(t.op)] + mixed_lines(t.rows, bare)) + tail,
            ) matches Ok(body) && (body_finished(body, streaming) matches Ok(done) && done.edits
                == all_meant(ops) + meant(t, before.len() + 1, all_meant(ops).len())
                && done.file_op is None)
        }),
{
    lemma_ops_fed(ops);
    let before = patch_lines(ops);
    let done = flushed(lines_fed(before)->Ok_0)->Ok_0;
    let lines = seq![written(t.op)] + mixed_lines(t.rows, bare);
    let n = t.rows.len() as int;
    lemma_mixed_fed(before, t, bare, n, done);
    assert(lines.take(n + 1) =~= lines);
    lemma_blank_tail(before + lines, tail);
    let body = lines_fed(before + lines + tail)->Ok_0;
    let p = body.pending->0;
    let rows = mixed_rows(t.rows, bare, before.len() + 1);
    assert(rows.take(n) =~= rows);
    let got = lines_fed(before + lines)->Ok_0.pending->0;
    assert(got.payloads + got.deferred =~= got.payloads);
    assert(p.payloads == rows);
    law_minus_rows(rows);
    assert(prefixes_stripped(rows) == rows) by {
        if exists|i: int|
            0 <= i < bare.len() && #[trigger] bare[i] && !is_blank(t.rows[i]) && unnumbered(
                t.rows[i],
            ) is None {
            let k = choose|i: int|
                0 <= i < bare.len() && #[trigger] bare[i] && !is_blank(t.rows[i]) && unnumbered(
                    t.rows[i],
                ) is None;
            law_other_rows_are_kept(rows, k);
        } else if is_numbered_copy(rows) {
            let i = choose|i: int|
                0 <= i < rows.len() && may_strip(#[trigger] rows[i]) && !is_literal(
                    without_number(rows[i].text),
                );
            assert(bare[i]);
        }
    }
    assert(row_texts(rows) =~= t.rows);
    lemma_meant(BodyView { pending: None, ..body }, t, before.len() + 1);
}

/// A value: digits, or a text in double or single quotes, with a comma behind it or not.
pub open spec fn is_value(text: Seq<char>) -> bool {
    exists|bare: Seq<char>, comma: Seq<char>|
        {
            &&& text == #[trigger] (bare + comma)
            &&& bare.len() > 0
            &&& comma == Seq::<char>::empty() || (comma == seq![','] && all_of(
                bare,
                CharClass::Digit,
            ))
            &&& all_of(bare, CharClass::Digit) || (bare[0] == '"' && bare.last() == '"') || (bare[0]
                == '\'' && bare.last() == '\'')
        }
}

proof fn lemma_digits_are_float(t: Seq<char>)
    requires
        t.len() > 0,
        all_of(t, CharClass::Digit),
    ensures
        is_float(t),
{
    assert(class_has(CharClass::Digit, t[0]));
    lemma_leading_is(t, CharClass::Digit, t.len());
    let rest = t.skip(t.len() as int);
    assert(rest =~= seq![]);
}

proof fn lemma_value_is_literal(text: Seq<char>)
    requires
        is_value(text),
    ensures
        is_literal(text),
{
    let (bare, comma) = choose|bare: Seq<char>, comma: Seq<char>|
        {
            &&& text == #[trigger] (bare + comma)
            &&& bare.len() > 0
            &&& comma == Seq::<char>::empty() || (comma == seq![','] && all_of(
                bare,
                CharClass::Digit,
            ))
            &&& all_of(bare, CharClass::Digit) || (bare[0] == '"' && bare.last() == '"') || (bare[0]
                == '\'' && bare.last() == '\'')
        };
    assert(text[0] == bare[0]);
    if all_of(bare, CharClass::Digit) {
        assert(class_has(CharClass::Digit, bare[0]));
        assert(class_has(CharClass::Digit, bare[bare.len() - 1]));
    }
    assert(!is_white(text[0]) && !is_white(text.last())) by {
        if comma.len() == 0 {
            assert(text =~= bare);
        } else {
            assert(text.last() == ',');
        }
    }
    lemma_leading_is(text, CharClass::White, 0);
    assert(text.skip(0) =~= text);
    lemma_trailing_is(text, CharClass::White, 0);
    assert(text.take(text.len() as int) =~= text);
    assert(trimmed(text) == text);
    if all_of(bare, CharClass::Digit) {
        lemma_digits_are_float(bare);
        if comma.len() == 0 {
            assert(text =~= bare);
        } else {
            assert forall|i: int| text.len() - 1 <= i < text.len() implies class_has(
                CharClass::Comma,
                #[trigger] text[i],
            ) by {}
            assert(text[text.len() - 2] == bare.last());
            lemma_trailing_is(text, CharClass::Comma, 1);
            assert(text.take(text.len() - 1) =~= bare);
        }
    } else {
        assert(text =~= bare);
    }
}

/// Rows of numbers with a colon and a value are no copy of numbered lines but a map, and stay as
/// they are.
pub proof fn law_maps_from_numbers_are_kept(
    rows: Seq<RowView>,
    numbers: Seq<nat>,
    values: Seq<Seq<char>>,
)
    requires
        rows.len() == numbers.len() == values.len(),
        forall|i: int|
            0 <= i < rows.len() ==> (#[trigger] rows[i]).bare && numbers[i] > 0 && rows[i].text
                == decimal(numbers[i]) + seq![':'] + values[i] && is_value(values[i]),
    ensures
        prefixes_stripped(rows) == rows,
{
    if is_numbered_copy(rows) {
        let i = choose|i: int|
            0 <= i < rows.len() && may_strip(#[trigger] rows[i]) && !is_literal(
                without_number(rows[i].text),
            );
        let none = Seq::<char>::empty();
        law_copied_number_is_taken_off(none, none, numbers[i], ':', values[i]);
        assert(none + none + decimal(numbers[i]) + seq![':'] + values[i] =~= rows[i].text);
        lemma_value_is_literal(values[i]);
    }
}

/// A marked row that looks like the header of an op is a row all the same, with a warning; other
/// marked rows give none.
pub proof fn law_rows_like_headers_are_warned_of(body: BodyView, text: Seq<char>, line_num: nat)
    requires
        body.pending matches Some(p) && bodyless(p.op) is None,
    ensures
        ({
            let t = trimmed_start(text, CharClass::White);
            let looks = "PUT "@.is_prefix_of(t) || "CUT "@.is_prefix_of(t) || "MV "@.is_prefix_of(t)
                || t == "REM"@;
            let warning = "line "@ + decimal(line_num) + ": "@
                + "body row looks like an op header and will be inserted as text"@;
            literal_fed(body, text, line_num) matches Ok(now) && {
                &&& looks ==> now.warnings.contains(warning)
                &&& !looks ==> now.warnings == body.warnings
                &&& now.edits == body.edits
                &&& now.file_op == body.file_op
                &&& now.pending matches Some(p) && p.op == body.pending->0.op && p.payloads == (
                body.pending->0.payloads + body.pending->0.deferred).push(
                    RowView { text, line_num, bare: false, minus: false },
                ) && p.deferred.len() == 0
            }
        }),
{
    let warning = "line "@ + decimal(line_num) + ": "@
        + "body row looks like an op header and will be inserted as text"@;
    assert(body.warnings.push(warning)[body.warnings.len() as int] == warning);
}

/// A number as it may be written: an optional sign, digits with a point among them or not, and an
/// optional exponent.
pub open spec fn is_number(sign: Seq<char>, whole: Seq<char>, point: Seq<char>, exponent: Seq<char>) -> bool {
    &&& sign == Seq::<char>::empty() || sign == seq!['+'] || sign == seq!['-']
    &&& all_of(whole, CharClass::Digit)
    &&& point == Seq::<char>::empty() || (point[0] == '.' && all_of(
        point.skip(1),
        CharClass::Digit,
    ))
    &&& whole.len() > 0 || point.len() > 1
    &&& exponent == Seq::<char>::empty() || {
        &&& exponent[0] == 'e' || exponent[0] == 'E'
        &&& exponent.len() > 1
        &&& all_of(exponent.skip(1), CharClass::Digit) || (exponent.len() > 2 && (exponent[1] == '+'
            || exponent[1] == '-') && all_of(exponent.skip(2), CharClass::Digit))
    }
}

proof fn lemma_exponent(exponent: Seq<char>)
    requires
        exponent == Seq::<char>::empty() || {
            &&& exponent[0] == 'e' || exponent[0] == 'E'
            &&& exponent.len() > 1
            &&& all_of(exponent.skip(1), CharClass::Digit) || (exponent.len() > 2 && (exponent[1]
                == '+' || exponent[1] == '-') && all_of(exponent.skip(2), CharClass::Digit))
        },
    ensures
        is_exponent(exponent),
        exponent.len() > 0 ==> !class_has(CharClass::Digit, exponent[0]) && exponent[0] != '.',
{
    if exponent.len() > 0 {
        let rest = exponent.skip(1);
        assert(rest[0] == exponent[1]);
        if all_of(rest, CharClass::Digit) {
            assert(class_has(CharClass::Digit, rest[0]));
        } else {
            assert(rest.skip(1) =~= exponent.skip(2));
        }
    }
}

proof fn lemma_decimal_number(whole: Seq<char>, point: Seq<char>, exponent: Seq<char>)
    requires
        is_number(seq![], whole, point, exponent),
    ensures
        is_decimal(whole + point + exponent),
{
    let t = whole + point + exponent;
    lemma_exponent(exponent);
    assert forall|i: int| 0 <= i < whole.len() implies class_has(CharClass::Digit, #[trigger] t[i]) by {
        assert(class_has(CharClass::Digit, whole[i]));
    }
    if point.len() > 0 {
        assert(t[whole.len() as int] == '.');
    } else if exponent.len() > 0 {
        assert(t[whole.len() as int] == exponent[0]);
    }
    lemma_leading_is(t, CharClass::Digit, whole.len());
    let rest = t.skip(whole.len() as int);
    assert(rest =~= point + exponent);
    if point.len() > 0 {
        let after = rest.skip(1);
        let digits = point.skip(1);
        assert(after =~= digits + exponent);
        assert forall|i: int| 0 <= i < digits.len() implies class_has(
            CharClass::Digit,
            #[trigger] after[i],
        ) by {
            assert(class_has(CharClass::Digit, digits[i]));
        }
        if exponent.len() > 0 {
            assert(after[digits.len() as int] == exponent[0]);
        }
        lemma_leading_is(after, CharClass::Digit, digits.len());
        assert(rest.skip(1 + digits.len() as int) =~= exponent);
    } else {
        assert(rest =~= exponent);
    }
}

/// Numbers are read as such however they are written, and so are the names of those that are not
/// finite or none, in upper or lower case.
pub proof fn law_numbers_are_values(
    sign: Seq<char>,
    whole: Seq<char>,
    point: Seq<char>,
    exponent: Seq<char>,
    name: Seq<char>,
)
    requires
        sign == Seq::<char>::empty() || sign == seq!['+'] || sign == seq!['-'],
        uppercase(name) == "INF"@ || uppercase(name) == "INFINITY"@ || uppercase(name) == "NAN"@,
    ensures
        is_number(sign, whole, point, exponent) ==> is_float(sign + (whole + point + exponent)),
        is_float(sign + name),
{
    reveal_strlit("INF");
    reveal_strlit("INFINITY");
    reveal_strlit("NAN");
    let upper_case = uppercase(name);
    assert(upper_case.len() == name.len());
    assert("INF"@.len() > 0 && "INFINITY"@.len() > 0 && "NAN"@.len() > 0);
    assert("INF"@[0] == 'I' && "INFINITY"@[0] == 'I' && "NAN"@[0] == 'N');
    assert(upper_case[0] == upper(name[0]));
    assert(name[0] != '+' && name[0] != '-');
    lemma_unsigned(sign, name);
    if is_number(sign, whole, point, exponent) {
        let t = whole + point + exponent;
        lemma_decimal_number(whole, point, exponent);
        assert(t.len() > 0 && t[0] != '+' && t[0] != '-') by {
            if whole.len() > 0 {
                assert(t[0] == whole[0]);
                assert(class_has(CharClass::Digit, whole[0]));
            } else {
                assert(t[0] == point[0]);
            }
        }
        lemma_unsigned(sign, t);
    }
}

proof fn lemma_unsigned(sign: Seq<char>, t: Seq<char>)
    requires
        sign == Seq::<char>::empty() || sign == seq!['+'] || sign == seq!['-'],
        t.len() > 0,
        t[0] != '+' && t[0] != '-',
    ensures
        unsigned(sign + t) == t,
{
    let s = sign + t;
    if sign.len() == 0 {
        assert(s =~= t);
    } else {
        assert(s[0] == sign[0]);
        assert(s.skip(1) =~= t);
    }
}

/// A row that nothing marks, under an op that takes rows, is noted as such and, where it begins
/// with a minus sign, as that. Blank rows wait for the next row. Without an op a row is refused
/// unless it is blank.
pub proof fn law_unmarked_rows_are_noted(body: BodyView, text: Seq<char>, line_num: nat)
    ensures
        ({
            let t = trimmed_start(text, CharClass::White);
            let minus = t.len() > 0 && t[0] == '-';
            let fed = raw_fed(body, text, line_num);
            match body.pending {
                None => if is_blank(text) {
                    fed == Ok::<BodyView, Seq<char>>(body)
                } else {
                    fed is Err
                },
                Some(p) => if is_blank(text) {
                    fed matches Ok(now) && now.edits == body.edits && now.warnings == body.warnings
                        && now.file_op == body.file_op && (now.pending matches Some(q) && q.op
                        == p.op && q.payloads == p.payloads && q.deferred == if bodyless(
                        p.op,
                    ) is None && p.payloads.len() > 0 {
                        p.deferred.push(RowView { text, line_num, bare: true, minus: false })
                    } else {
                        p.deferred
                    })
                } else if bodyless(p.op) is Some {
                    fed is Err
                } else {
                    fed matches Ok(now) && now.edits == body.edits && now.file_op == body.file_op && (
                    now.pending matches Some(q) && q.op == p.op && q.payloads == (p.payloads
                        + p.deferred).push(RowView { text, line_num, bare: true, minus })
                        && q.deferred.len() == 0) && (if p.deferred.len() > 0 || !minus {
                        now.warnings.contains("Auto-prefixed bare body row"@)
                    } else {
                        now.warnings == body.warnings
                    })
                },
            }
        }),
{
    let warning = "Auto-prefixed bare body row"@;
    assert(body.warnings.push(warning)[body.warnings.len() as int] == warning);
}

/// Which ops take rows: those with a colon and without a register that are no cuts. A colon behind
/// a cut is passed over with a warning.
pub proof fn law_ops_that_take_rows(body: BodyView, op: OpView, line_num: nat)
    ensures
        bodyless(op) is None <==> op.had_colon && op.register is None && !(op.target is Cut)
            && !(op.target is CutBlock),
        op.had_colon && op.register is None && (op.target is Cut || op.target is CutBlock) ==> (
        op_fed(body, op, line_num) matches Ok(now) ==> now.pending matches Some(p) && p.op == op),
        body.pending is None && op.had_colon && op.register is None && (op.target is Cut
            || op.target is CutBlock) ==> (op_fed(body, op, line_num) matches Ok(now)
            && now.warnings.contains("`CUT` colon is ignored"@) && now.edits == body.edits),
{
    let warning = "`CUT` colon is ignored"@;
    assert(body.warnings.push(warning)[body.warnings.len() as int] == warning);
}

/// Marks and headers inside a body: the mark at the front is passed over, and any other ends the op
/// before it.
pub proof fn law_marks_inside_a_body(body: BodyView, line: Seq<char>, line_num: nat)
    requires
        header_of(line) is Some,
    ensures
        line_fed(body, "*** Begin Patch"@, line_num) == Ok::<BodyView, Seq<char>>(body),
        line_fed(body, "*** End Patch"@, line_num) == flushed(body),
        line_fed(body, "*** Abort"@, line_num) == flushed(body),
        line_fed(body, line, line_num) == flushed(body) || line == "*** Begin Patch"@,
{
    reveal_strlit("*** Begin Patch");
    reveal_strlit("*** End Patch");
    reveal_strlit("*** Abort");
    assert("*** Abort"@.len() != "*** Begin Patch"@.len());
    assert("*** End Patch"@.len() != "*** Begin Patch"@.len());
}

} // verus!
