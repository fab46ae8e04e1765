//! What the forms of the patch language mean, from the text of a patch to the text of the file.

use crate::apply::{
    anchors_of, applied, applied_concrete, deletes_line, first_stray, law_insert_lines,
    law_replace_lines, materialized, phantom_line, replacing, without_deletes,
};
use crate::clipboard::{clip_run, clip_step, is_clip_edit, law_run_without_clipboard_edits, ClipRun};
use crate::block::{block_edits, block_run, block_span, law_block_lies_in_text, BlockRun};
use crate::format::{header_of, header_text, law_header_round_trip};
use crate::parse::{
    block_edit, bodyless, empty_body, flushed, gap_cursor, input_lines, input_run, line_fed,
    lines_fed, op_done, parsed, patch_sections, BodyView, InputView, PendingView,
};
use crate::rows::{law_marked_rows_are_kept, minus_resolved, prefixes_stripped, row_texts, RowView};
use crate::scan::{
    cut_op, locator_end, number_at, put_op, range_at, range_of, register_at, skip_blanks,
    LocatorEnd, OpView, RangeScan, Target,
};
use crate::text::{
    all_of, class_has, decimal, digits_value, ends_with_char, is_white, join_lines,
    law_decimal_round_trip, law_lines_of_join, leading, lemma_digits_value_prefix, lemma_join_cons,
    lemma_leading, lemma_leading_is, lemma_trailing, lemma_trailing_is, lines_of, newline, trailing,
    trimmed, trimmed_end, uppercase, CharClass,
};
use crate::types::{
    deletes, inserts, Anchor, BlockMode, BlockResolution, ClipboardView, Cursor, EditView,
    FileOpView, ParsedRange, PasteTarget, SectionView, MAX_RANGE_LINES,
};
use vstd::prelude::*;

verus! {

// ---------------------------------------------------------------------------------------------
// What every parsed edit is like

pub open spec fn in_order(range: ParsedRange) -> bool {
    1 <= range.start.line <= range.end.line && range.end.line - range.start.line < MAX_RANGE_LINES
}

/// An edit as the parser makes it: numbered by its place, on lines that are counted from one, with
/// ranges that run forward and are not too long.
pub open spec fn well_formed(edit: EditView, index: nat) -> bool {
    &&& forall|k: int|
        0 <= k < edit.anchors().len() ==> (#[trigger] edit.anchors()[k]).line >= 1
    &&& match edit {
        EditView::Insert { index: n, .. } => n == index,
        EditView::Delete { index: n, .. } => n == index,
        EditView::Cut { range, index: n, .. } => n == index && in_order(range),
        EditView::Paste { at, index: n, .. } => n == index && match at {
            PasteTarget::Gap { .. } => true,
            PasteTarget::Span { range } => in_order(range),
        },
        EditView::Block { index: n, .. } => n == index,
    }
}

pub open spec fn all_well_formed(edits: Seq<EditView>) -> bool {
    forall|i: int| 0 <= i < edits.len() ==> well_formed(#[trigger] edits[i], i as nat)
}

/// The lines that a target names are counted from one. Ranges are checked once the body is read.
pub open spec fn target_counts_from_one(target: Target) -> bool {
    match target {
        Target::Replace { range } => range.start.line >= 1 && range.end.line >= 1,
        Target::Cut { range } => range.start.line >= 1 && range.end.line >= 1,
        Target::Block { anchor } => anchor.line >= 1,
        Target::CutBlock { anchor } => anchor.line >= 1,
        Target::InsertBefore { anchor } => anchor.line >= 1,
        Target::InsertAfter { anchor } => anchor.line >= 1,
        Target::InsertAfterBlock { anchor } => anchor.line >= 1,
        Target::Bof => true,
        Target::Eof => true,
    }
}

proof fn lemma_number_at_positive(s: Seq<char>)
    ensures
        number_at(s) matches Some((n, used)) ==> n >= 1 && used <= s.len(),
{
    lemma_leading(s, CharClass::Digit);
    let n = leading(s, CharClass::Digit);
    if n > 0 && s[0] != '0' {
        let t = s.take(n as int);
        assert(class_has(CharClass::Digit, s[0]));
        lemma_digits_value_prefix(t, 1);
        assert(t.take(1).drop_last() =~= seq![]);
        assert(t.take(1).last() == s[0]);
        reveal_with_fuel(digits_value, 2);
    }
}

proof fn lemma_range_at_positive(s: Seq<char>)
    ensures
        range_at(s) matches Some(scan) ==> scan.range.start.line >= 1 && scan.range.end.line >= 1,
{
    let t = skip_blanks(s);
    lemma_number_at_positive(t);
    if let Some((start, used)) = number_at(t) {
        let after = t.skip(used as int);
        let sep = leading(after, CharClass::Separator);
        lemma_number_at_positive(skip_blanks(after.skip(sep as int)));
    }
}

proof fn lemma_put_op_positive(s: Seq<char>)
    ensures
        put_op(s) matches Ok(op) ==> target_counts_from_one(op.target),
        cut_op(s) matches Ok(op) ==> target_counts_from_one(op.target),
{
    lemma_range_at_positive(s);
    let t = skip_blanks(s);
    lemma_range_at_positive(t);
    if t.len() > 0 {
        lemma_number_at_positive(skip_blanks(t.skip(1)));
    }
}

proof fn lemma_well_formed_concat(a: Seq<EditView>, b: Seq<EditView>)
    requires
        all_well_formed(a),
        forall|k: int| 0 <= k < b.len() ==> well_formed(#[trigger] b[k], (a.len() + k) as nat),
    ensures
        all_well_formed(a + b),
{
    assert forall|i: int| 0 <= i < (a + b).len() implies well_formed(
        #[trigger] (a + b)[i],
        i as nat,
    ) by {
        if i < a.len() {
            assert((a + b)[i] == a[i]);
        } else {
            assert((a + b)[i] == b[i - a.len()]);
        }
    }
}

proof fn lemma_op_done_well_formed(
    body: BodyView,
    op: OpView,
    texts: Seq<Seq<char>>,
    line_num: nat,
)
    requires
        all_well_formed(body.edits),
        target_counts_from_one(op.target),
    ensures
        op_done(body, op, texts, line_num) matches Ok(done) ==> all_well_formed(done.edits)
            && done.pending == body.pending && done.file_op == body.file_op,
{
    if let Ok(done) = op_done(body, op, texts, line_num) {
        let n = body.edits.len();
        let more = done.edits.skip(n as int);
        assert(done.edits =~= body.edits + more);
        assert forall|k: int| 0 <= k < more.len() implies well_formed(
            #[trigger] more[k],
            (n + k) as nat,
        ) by {
            assert(more[k] == done.edits[n + k]);
        }
        lemma_well_formed_concat(body.edits, more);
    }
}

/// What has been read is well-formed.
pub open spec fn body_well_formed(body: BodyView) -> bool {
    &&& all_well_formed(body.edits)
    &&& body.pending matches Some(p) ==> target_counts_from_one(p.op.target)
}

proof fn lemma_flushed_well_formed(body: BodyView)
    requires
        body_well_formed(body),
    ensures
        flushed(body) matches Ok(done) ==> body_well_formed(done) && done.pending is None
            && done.file_op == body.file_op,
{
    if let Some(p) = body.pending {
        if let Ok(rows) = minus_resolved(p.payloads) {
            lemma_op_done_well_formed(
                BodyView { pending: None, ..body },
                p.op,
                row_texts(prefixes_stripped(rows)),
                p.line_num,
            );
        }
    }
}

proof fn lemma_line_fed_well_formed(body: BodyView, line: Seq<char>, line_num: nat)
    requires
        body_well_formed(body),
    ensures
        line_fed(body, line, line_num) matches Ok(done) ==> body_well_formed(done),
{
    lemma_flushed_well_formed(body);
    lemma_flushed_well_formed(body.warn("`CUT` colon is ignored"@));
    lemma_put_op_positive(line.skip("PUT "@.len() as int));
    lemma_put_op_positive(line.skip("CUT "@.len() as int));
}

proof fn lemma_lines_fed_well_formed(lines: Seq<Seq<char>>)
    ensures
        lines_fed(lines) matches Ok(body) ==> body_well_formed(body),
    decreases lines.len(),
{
    if lines.len() > 0 {
        lemma_lines_fed_well_formed(lines.drop_last());
        if let Ok(body) = lines_fed(lines.drop_last()) {
            lemma_line_fed_well_formed(body, lines.last(), lines.len());
        }
    }
}

/// Every edit that the parser hands out is well-formed, no op is left pending, and a body that
/// deletes its file holds no edit.
pub proof fn law_parsed_edits_are_well_formed(diff: Seq<char>, streaming: bool)
    ensures
        parsed(diff, streaming) matches Ok(body) ==> all_well_formed(body.edits)
            && body.pending is None && (body.file_op matches Some(op) && op is Rem
            ==> body.edits.len() == 0),
{
    lemma_lines_fed_well_formed(input_lines(diff));
    if let Ok(body) = lines_fed(input_lines(diff)) {
        lemma_flushed_well_formed(body);
    }
}

// ---------------------------------------------------------------------------------------------
// Reading a patch that holds one op

/// A row that one line of a patch can hold.
pub open spec fn is_row(row: Seq<char>) -> bool {
    all_of(row, CharClass::InLine) && !ends_with_char(row, '\r')
}

/// The rows, each marked with `+`.
pub open spec fn marked(rows: Seq<Seq<char>>) -> Seq<Seq<char>> {
    Seq::new(rows.len(), |i: int| seq!['+'] + rows[i])
}

/// A header line and the rows under it.
pub open spec fn patch_of(header: Seq<char>, rows: Seq<Seq<char>>) -> Seq<char> {
    join_lines(seq![header] + marked(rows))
}

pub proof fn lemma_trimmed_first(s: Seq<char>)
    requires
        s.len() > 0,
        !is_white(s[0]),
    ensures
        trimmed(s).len() > 0,
        trimmed(s)[0] == s[0],
{
    lemma_leading_is(s, CharClass::White, 0);
    assert(s.skip(0) =~= s);
    lemma_trailing(s, CharClass::White);
    let n = trailing(s, CharClass::White);
    if n == s.len() {
        assert(class_has(CharClass::White, s[0]));
    }
}

/// A line that begins with a letter or a plus sign is no header and no marker.
pub proof fn lemma_plain_line(line: Seq<char>)
    requires
        line.len() > 0,
        line[0] != '[',
        line[0] != '*',
        !is_white(line[0]),
    ensures
        header_of(line) is None,
        line != "*** Begin Patch"@,
        line != "*** End Patch"@,
        line != "*** Abort"@,
{
    lemma_trimmed_first(line);
    reveal_strlit("*** Begin Patch");
    reveal_strlit("*** End Patch");
    reveal_strlit("*** Abort");
}

pub proof fn lemma_input_lines_of(lines: Seq<Seq<char>>)
    requires
        lines.len() > 0,
        forall|i: int| 0 <= i < lines.len() ==> is_row(#[trigger] lines[i]),
        lines.last().len() > 0,
    ensures
        input_lines(join_lines(lines)) == lines,
{
    assert forall|i: int| 0 <= i < lines.len() implies all_of(
        #[trigger] lines[i],
        CharClass::InLine,
    ) by {
        assert(is_row(lines[i]));
    }
    law_lines_of_join(lines);
    let kept = Seq::new(lines.len(), |i: int| trimmed_end(lines[i], CharClass::Return));
    assert forall|i: int| 0 <= i < lines.len() implies #[trigger] kept[i] == lines[i] by {
        assert(is_row(lines[i]));
        lemma_trailing_is(lines[i], CharClass::Return, 0);
        assert(lines[i].take(lines[i].len() as int) =~= lines[i]);
    }
    assert(kept =~= lines);
}

/// The rows of an op as they are collected.
pub open spec fn marked_rows(rows: Seq<Seq<char>>) -> Seq<RowView> {
    Seq::new(
        rows.len(),
        |i: int|
            RowView { text: rows[i], line_num: (i + 2) as nat, bare: false, minus: false },
    )
}

#[verifier::rlimit(40)]
proof fn lemma_rows_fed(header: Seq<char>, op: OpView, rows: Seq<Seq<char>>)
    requires
        line_fed(empty_body(), header, 1) matches Ok(body) && body.edits == Seq::<
            EditView,
        >::empty() && body.file_op is None && body.pending == Some(
            PendingView { op, line_num: 1, payloads: seq![], deferred: seq![] },
        ),
        rows.len() > 0 ==> bodyless(op) is None,
    ensures
        lines_fed(seq![header] + marked(rows)) matches Ok(body) && body.edits == Seq::<
            EditView,
        >::empty() && body.file_op is None && body.pending == Some(
            PendingView { op, line_num: 1, payloads: marked_rows(rows), deferred: seq![] },
        ),
    decreases rows.len(),
{
    let all = seq![header] + marked(rows);
    if rows.len() == 0 {
        assert(all =~= seq![header]);
        assert(all.drop_last() =~= seq![]);
        assert(marked_rows(rows) =~= seq![]);
        reveal_with_fuel(lines_fed, 2);
    } else {
        let less = rows.drop_last();
        lemma_rows_fed(header, op, less);
        assert(all.drop_last() =~= seq![header] + marked(less));
        let line = all.last();
        assert(line == seq!['+'] + rows.last());
        lemma_plain_line(line);
        assert(line.skip(1) =~= rows.last());
        let before = lines_fed(all.drop_last())->Ok_0;
        assert(all.len() == less.len() + 2);
        let row = RowView {
            text: rows.last(),
            line_num: all.len(),
            bare: false,
            minus: false,
        };
        assert(marked_rows(less) + Seq::<RowView>::empty() =~= marked_rows(less));
        assert(marked_rows(rows) =~= marked_rows(less).push(row));
    }
}

/// A patch of one op and marked rows is read as that op with those rows.
proof fn lemma_patch_parsed(header: Seq<char>, op: OpView, rows: Seq<Seq<char>>)
    requires
        is_row(header),
        header.len() > 0,
        forall|i: int| 0 <= i < rows.len() ==> is_row(#[trigger] rows[i]),
        line_fed(empty_body(), header, 1) matches Ok(body) && body.edits == Seq::<
            EditView,
        >::empty() && body.file_op is None && body.pending == Some(
            PendingView { op, line_num: 1, payloads: seq![], deferred: seq![] },
        ),
        rows.len() > 0 ==> bodyless(op) is None,
    ensures
        lines_fed(input_lines(patch_of(header, rows))) is Ok,
        ({
            let body = lines_fed(input_lines(patch_of(header, rows)))->Ok_0;
            &&& body.edits == Seq::<EditView>::empty()
            &&& body.file_op is None
            &&& flushed(body) == op_done(BodyView { pending: None, ..body }, op, rows, 1)
        }),
{
    let all = seq![header] + marked(rows);
    assert forall|i: int| 0 <= i < all.len() implies is_row(#[trigger] all[i]) by {
        if i > 0 {
            let row = rows[i - 1];
            assert(is_row(row));
            assert(all[i] == seq!['+'] + row);
            assert forall|j: int| 0 <= j < all[i].len() implies class_has(
                CharClass::InLine,
                #[trigger] all[i][j],
            ) by {
                if j > 0 {
                    assert(all[i][j] == row[j - 1]);
                }
            }
        }
    }
    if rows.len() > 0 {
        assert(all.last() == seq!['+'] + rows.last());
    }
    lemma_input_lines_of(all);
    lemma_rows_fed(header, op, rows);
    law_marked_rows_are_kept(marked_rows(rows));
    assert(row_texts(marked_rows(rows)) =~= rows);
}

// ---------------------------------------------------------------------------------------------
// Reading back numbers

pub proof fn lemma_decimal_first(n: nat)
    requires
        n > 0,
    ensures
        decimal(n).len() > 0,
        decimal(n)[0] != '0',
    decreases n,
{
    if n >= 10 {
        lemma_decimal_first(n / 10);
        assert(decimal(n)[0] == decimal(n / 10)[0]);
    }
}

/// A number in decimal, followed by anything but a digit, is read as that number.
proof fn lemma_number_at_decimal(n: usize, rest: Seq<char>)
    requires
        n > 0,
        rest.len() > 0 ==> !class_has(CharClass::Digit, rest[0]),
    ensures
        number_at(decimal(n as nat) + rest) == Some((n, decimal(n as nat).len())),
        (decimal(n as nat) + rest).skip(decimal(n as nat).len() as int) == rest,
        !class_has(CharClass::Blank, (decimal(n as nat) + rest)[0]),
        class_has(CharClass::Digit, (decimal(n as nat) + rest)[0]),
{
    let d = decimal(n as nat);
    let s = d + rest;
    lemma_decimal_first(n as nat);
    law_decimal_round_trip(n as nat);
    assert forall|i: int| 0 <= i < d.len() implies class_has(CharClass::Digit, #[trigger] s[i]) by {
        assert(s[i] == d[i]);
    }
    if rest.len() > 0 {
        assert(s[d.len() as int] == rest[0]);
    }
    lemma_leading_is(s, CharClass::Digit, d.len());
    assert(s.take(d.len() as int) =~= d);
    assert(s.skip(d.len() as int) =~= rest);
    assert(s[0] == d[0]);
    assert(class_has(CharClass::Digit, d[0]));
}

proof fn lemma_no_blanks(s: Seq<char>)
    requires
        s.len() > 0 ==> !class_has(CharClass::Blank, s[0]),
    ensures
        skip_blanks(s) == s,
{
    lemma_leading_is(s, CharClass::Blank, 0);
    assert(s.skip(0) =~= s);
}

/// `N.=M` and what follows it.
proof fn lemma_range_at(a: usize, b: usize, rest: Seq<char>)
    requires
        a > 0,
        b > 0,
        rest.len() > 0 ==> !class_has(CharClass::Digit, rest[0]) && !class_has(
            CharClass::Blank,
            rest[0],
        ),
    ensures
        range_at(decimal(a as nat) + ".="@ + decimal(b as nat) + rest) == Some(
            RangeScan { range: range_of(a, b), had_sep: true, rest },
        ),
{
    reveal_strlit(".=");
    let da = decimal(a as nat);
    let db = decimal(b as nat);
    let tail = db + rest;
    let after = ".="@ + tail;
    let s = da + ".="@ + db + rest;
    assert(s =~= da + after);
    assert(after[0] == '.');
    lemma_number_at_decimal(a, after);
    lemma_no_blanks(s);
    lemma_number_at_decimal(b, rest);
    assert forall|i: int| 0 <= i < 2 implies
        class_has(CharClass::Separator, #[trigger] after[i]) by {}
    assert(after[2] == tail[0]);
    lemma_leading_is(after, CharClass::Separator, 2);
    assert(after.skip(2) =~= tail);
    lemma_no_blanks(tail);
    lemma_no_blanks(rest);
}

/// What ends a header: a colon or nothing.
proof fn lemma_locator_end(had_colon: bool)
    ensures
        ({
            let end = if had_colon {
                seq![':']
            } else {
                seq![]
            };
            locator_end(end) == (LocatorEnd { register: None, had_colon, rest: seq![] })
        }),
{
    let end = if had_colon {
        seq![':']
    } else {
        seq![]
    };
    lemma_no_blanks(end);
    lemma_no_blanks(Seq::<char>::empty());
    assert(register_at(end) is None);
    if had_colon {
        assert(end.skip(1) =~= seq![]);
    }
}

pub proof fn lemma_decimal_is_row(n: nat)
    ensures
        forall|i: int|
            0 <= i < decimal(n).len() ==> class_has(CharClass::Digit, #[trigger] decimal(n)[i]),
        decimal(n).len() > 0,
    decreases n,
{
    law_decimal_round_trip(n);
    if n < 10 {
    } else {
        lemma_decimal_is_row(n / 10);
    }
}

// ---------------------------------------------------------------------------------------------
// Headers

/// `PUT A.=B:`
pub open spec fn put_lines(a: usize, b: usize) -> Seq<char> {
    "PUT "@ + decimal(a as nat) + ".="@ + decimal(b as nat) + ":"@
}

/// `CUT A.=B`
pub open spec fn cut_lines(a: usize, b: usize) -> Seq<char> {
    "CUT "@ + decimal(a as nat) + ".="@ + decimal(b as nat)
}

/// `PUT <N:`, `PUT >N:` or `PUT >$:`
pub open spec fn put_gap(target: Target) -> Seq<char> {
    match target {
        Target::InsertBefore { anchor } => "PUT <"@ + decimal(anchor.line as nat) + ":"@,
        Target::InsertAfter { anchor } => "PUT >"@ + decimal(anchor.line as nat) + ":"@,
        Target::Bof => "PUT <1:"@,
        _ => "PUT >$:"@,
    }
}

#[verifier::rlimit(40)]
pub proof fn lemma_put_lines(a: usize, b: usize)
    requires
        a > 0,
        b > 0,
    ensures
        ({
            let op = OpView {
                target: Target::Replace { range: range_of(a, b) },
                register: None,
                had_colon: true,
            };
            &&& is_row(put_lines(a, b))
            &&& put_lines(a, b).len() > 0
            &&& line_fed(empty_body(), put_lines(a, b), 1) == Ok::<BodyView, Seq<char>>(
                BodyView {
                    pending: Some(
                        PendingView { op, line_num: 1, payloads: seq![], deferred: seq![] },
                    ),
                    ..empty_body()
                },
            )
        }),
{
    reveal_strlit("PUT ");
    reveal_strlit(".=");
    reveal_strlit(":");
    let da = decimal(a as nat);
    let db = decimal(b as nat);
    let line = put_lines(a, b);
    lemma_decimal_is_row(a as nat);
    lemma_decimal_is_row(b as nat);
    assert(line[0] == 'P');
    lemma_plain_line(line);
    let locator = line.skip(4);
    assert(locator =~= da + ".="@ + db + seq![':']);
    assert("PUT "@.is_prefix_of(line));
    lemma_range_at(a, b, seq![':']);
    assert(class_has(CharClass::Digit, da[0]));
    assert(locator[0] == da[0]);
    lemma_no_blanks(locator);
    lemma_locator_end(true);
    assert forall|i: int| 0 <= i < line.len() implies class_has(
        CharClass::InLine,
        #[trigger] line[i],
    ) by {
        if 4 <= i < 4 + da.len() {
            assert(line[i] == da[i - 4]);
            assert(class_has(CharClass::Digit, da[i - 4]));
        } else if 6 + da.len() <= i < 6 + da.len() + db.len() {
            assert(line[i] == db[i - 6 - da.len()]);
            assert(class_has(CharClass::Digit, db[i - 6 - da.len()]));
        }
    }
    assert(line.last() == ':');
}

proof fn lemma_cut_row(a: usize, b: usize)
    ensures
        is_row(cut_lines(a, b)),
{
    reveal_strlit("CUT ");
    reveal_strlit(".=");
    let da = decimal(a as nat);
    let db = decimal(b as nat);
    let line = cut_lines(a, b);
    lemma_decimal_is_row(a as nat);
    lemma_decimal_is_row(b as nat);
    assert forall|i: int| 0 <= i < line.len() implies class_has(
        CharClass::InLine,
        #[trigger] line[i],
    ) && line[i] != '\r' by {
        if 4 <= i < 4 + da.len() {
            assert(line[i] == da[i - 4]);
            assert(class_has(CharClass::Digit, da[i - 4]));
        } else if 6 + da.len() <= i < 6 + da.len() + db.len() {
            assert(line[i] == db[i - 6 - da.len()]);
            assert(class_has(CharClass::Digit, db[i - 6 - da.len()]));
        }
    }
}

#[verifier::rlimit(40)]
proof fn lemma_cut_lines(a: usize, b: usize)
    requires
        a > 0,
        b > 0,
    ensures
        ({
            let op = OpView {
                target: Target::Cut { range: range_of(a, b) },
                register: None,
                had_colon: false,
            };
            &&& is_row(cut_lines(a, b))
            &&& cut_lines(a, b).len() > 0
            &&& line_fed(empty_body(), cut_lines(a, b), 1) == Ok::<BodyView, Seq<char>>(
                BodyView {
                    pending: Some(
                        PendingView { op, line_num: 1, payloads: seq![], deferred: seq![] },
                    ),
                    ..empty_body()
                },
            )
        }),
{
    reveal_strlit("PUT ");
    reveal_strlit("CUT ");
    reveal_strlit(".=");
    let da = decimal(a as nat);
    let db = decimal(b as nat);
    let line = cut_lines(a, b);
    lemma_cut_row(a, b);
    lemma_decimal_is_row(a as nat);
    lemma_decimal_is_row(b as nat);
    assert(line[0] == 'C');
    lemma_plain_line(line);
    let locator = line.skip(4);
    assert(locator =~= da + ".="@ + db + Seq::<char>::empty());
    assert("CUT "@.is_prefix_of(line));
    lemma_range_at(a, b, Seq::<char>::empty());
    lemma_locator_end(false);
}

pub open spec fn is_gap(target: Target) -> bool {
    match target {
        Target::InsertBefore { anchor } => anchor.line > 1,
        Target::InsertAfter { anchor } => anchor.line >= 1,
        Target::Bof => true,
        Target::Eof => true,
        _ => false,
    }
}

/// `PUT >N:` and `PUT <N:`, of which `PUT <1:` addresses the head.
proof fn lemma_put_numbered_gap(before: bool, n: usize, target: Target)
    requires
        n >= 1,
        target == if !before {
            Target::InsertAfter { anchor: Anchor { line: n } }
        } else if n == 1 {
            Target::Bof
        } else {
            Target::InsertBefore { anchor: Anchor { line: n } }
        },
    ensures
        ({
            let s = seq![
                if before {
                    '<'
                } else {
                    '>'
                },
            ] + decimal(n as nat) + seq![':'];
            put_op(s) == Ok::<OpView, Seq<char>>(
                OpView { target, register: None, had_colon: true },
            )
        }),
{
    let sigil = if before {
        '<'
    } else {
        '>'
    };
    let d = decimal(n as nat);
    let s = seq![sigil] + d + seq![':'];
    lemma_no_blanks(s);
    let t = s.skip(1);
    assert(t =~= d + seq![':']);
    lemma_number_at_decimal(n, seq![':']);
    lemma_no_blanks(t);
    lemma_locator_end(true);
    assert(t[0] != '$');
}

proof fn lemma_put_tail_gap()
    ensures
        put_op(seq!['>', '$', ':']) == Ok::<OpView, Seq<char>>(
            OpView { target: Target::Eof, register: None, had_colon: true },
        ),
{
    let s = seq!['>', '$', ':'];
    lemma_no_blanks(s);
    let t = s.skip(1);
    assert(t =~= seq!['$', ':']);
    lemma_no_blanks(t);
    assert(t.skip(1) =~= seq![':']);
    lemma_locator_end(true);
}

/// What follows `PUT ` in the header of a gap.
#[verifier::rlimit(40)]
proof fn lemma_gap_locator(target: Target)
    requires
        is_gap(target),
    ensures
        put_gap(target).len() > 4,
        put_gap(target)[0] == 'P',
        "PUT "@.is_prefix_of(put_gap(target)),
        "PUT "@.len() == 4,
        is_row(put_gap(target)),
        put_op(put_gap(target).skip(4)) == Ok::<OpView, Seq<char>>(
            OpView { target, register: None, had_colon: true },
        ),
{
    reveal_strlit("PUT ");
    reveal_strlit("PUT <");
    reveal_strlit("PUT >");
    reveal_strlit("PUT <1:");
    reveal_strlit("PUT >$:");
    reveal_strlit(":");
    let line = put_gap(target);
    match target {
        Target::InsertBefore { anchor } => {
            let d = decimal(anchor.line as nat);
            lemma_decimal_is_row(anchor.line as nat);
            assert(line.skip(4) =~= seq!['<'] + d + seq![':']);
            assert(line =~= seq!['P', 'U', 'T', ' ', '<'] + d + seq![':']);
            lemma_put_numbered_gap(true, anchor.line, target);
            lemma_numbered_is_row('<', anchor.line as nat);
        },
        Target::InsertAfter { anchor } => {
            let d = decimal(anchor.line as nat);
            lemma_decimal_is_row(anchor.line as nat);
            assert(line.skip(4) =~= seq!['>'] + d + seq![':']);
            assert(line =~= seq!['P', 'U', 'T', ' ', '>'] + d + seq![':']);
            lemma_put_numbered_gap(false, anchor.line, target);
            lemma_numbered_is_row('>', anchor.line as nat);
        },
        Target::Bof => {
            assert(decimal(1) =~= seq!['1']);
            assert(line.skip(4) =~= seq!['<'] + decimal(1) + seq![':']);
            lemma_put_numbered_gap(true, 1, target);
        },
        _ => {
            assert(line.skip(4) =~= seq!['>', '$', ':']);
            lemma_put_tail_gap();
        },
    }
}

proof fn lemma_numbered_is_row(sigil: char, n: nat)
    requires
        sigil == '<' || sigil == '>',
    ensures
        is_row(seq!['P', 'U', 'T', ' ', sigil] + decimal(n) + seq![':']),
{
    let d = decimal(n);
    let line = seq!['P', 'U', 'T', ' ', sigil] + d + seq![':'];
    lemma_decimal_is_row(n);
    assert forall|i: int| 0 <= i < line.len() implies class_has(
        CharClass::InLine,
        #[trigger] line[i],
    ) by {
        if 5 <= i < 5 + d.len() {
            assert(line[i] == d[i - 5]);
            assert(class_has(CharClass::Digit, d[i - 5]));
        }
    }
    assert(line.last() == ':');
}

proof fn lemma_put_gap(target: Target)
    requires
        is_gap(target),
    ensures
        is_row(put_gap(target)),
        put_gap(target).len() > 0,
        line_fed(empty_body(), put_gap(target), 1) == Ok::<BodyView, Seq<char>>(
            BodyView {
                pending: Some(
                    PendingView {
                        op: OpView { target, register: None, had_colon: true },
                        line_num: 1,
                        payloads: seq![],
                        deferred: seq![],
                    },
                ),
                ..empty_body()
            },
        ),
{
    lemma_gap_locator(target);
    lemma_plain_line(put_gap(target));
}

// ---------------------------------------------------------------------------------------------
// Laws: what the parser makes of a form

/// `PUT A.=B:` with rows is read as the edits that replace the lines A to B by the rows.
pub proof fn law_put_lines_parsed(a: usize, b: usize, rows: Seq<Seq<char>>)
    requires
        1 <= a <= b,
        b - a < MAX_RANGE_LINES,
        rows.len() > 0,
        forall|i: int| 0 <= i < rows.len() ==> is_row(#[trigger] rows[i]),
    ensures
        parsed(patch_of(put_lines(a, b), rows), false) matches Ok(body) && body.edits == replacing(
            a,
            b,
            rows,
            1,
            0,
        ) && body.file_op is None,
{
    let op = OpView {
        target: Target::Replace { range: range_of(a, b) },
        register: None,
        had_colon: true,
    };
    lemma_put_lines(a, b);
    lemma_patch_parsed(put_lines(a, b), op, rows);
    let body = lines_fed(input_lines(patch_of(put_lines(a, b), rows)))->Ok_0;
    let n = body.edits.len();
    assert(body.edits + replacing(a, b, rows, 1, n) =~= replacing(a, b, rows, 1, 0));
}

/// `CUT A.=B` is read as a capture of the lines A to B and their deletion.
pub proof fn law_cut_lines_parsed(a: usize, b: usize)
    requires
        1 <= a <= b,
        b - a < MAX_RANGE_LINES,
    ensures
        parsed(cut_lines(a, b), false) matches Ok(body) && body.edits == seq![
            EditView::Cut { range: range_of(a, b), register: None, line_num: 1, index: 0 },
        ] + deletes(a, b, 1, 1) && body.file_op is None,
{
    let op = OpView {
        target: Target::Cut { range: range_of(a, b) },
        register: None,
        had_colon: false,
    };
    lemma_cut_lines(a, b);
    lemma_patch_parsed(cut_lines(a, b), op, seq![]);
    assert(seq![cut_lines(a, b)] + marked(seq![]) =~= seq![cut_lines(a, b)]);
    assert(patch_of(cut_lines(a, b), seq![]) == cut_lines(a, b));
    let body = lines_fed(input_lines(cut_lines(a, b)))->Ok_0;
    let more = seq![
        EditView::Cut { range: range_of(a, b), register: None, line_num: 1, index: 0 },
    ] + deletes(a, b, 1, 1);
    assert(body.edits + more =~= more);
}

/// `PUT <N:`, `PUT >N:` and `PUT >$:` with rows are read as insertions into that gap.
pub proof fn law_put_gap_parsed(target: Target, rows: Seq<Seq<char>>)
    requires
        is_gap(target),
        rows.len() > 0,
        forall|i: int| 0 <= i < rows.len() ==> is_row(#[trigger] rows[i]),
    ensures
        parsed(patch_of(put_gap(target), rows), false) matches Ok(body) && body.edits == inserts(
            rows,
            gap_cursor(target),
            1,
            0,
            false,
            None,
        ) && body.file_op is None,
{
    let op = OpView { target, register: None, had_colon: true };
    lemma_put_gap(target);
    lemma_patch_parsed(put_gap(target), op, rows);
    let body = lines_fed(input_lines(patch_of(put_gap(target), rows)))->Ok_0;
    assert(body.edits + inserts(rows, gap_cursor(target), 1, 0, false, None) =~= inserts(
        rows,
        gap_cursor(target),
        1,
        0,
        false,
        None,
    ));
}

// ---------------------------------------------------------------------------------------------
// Laws: from the patch to the text

proof fn lemma_without_deletes_keeps(edits: Seq<EditView>, phantom: nat)
    requires
        forall|i: int|
            0 <= i < edits.len() ==> phantom == 0 || !deletes_line(#[trigger] edits[i], phantom),
    ensures
        without_deletes(edits, phantom) == edits,
    decreases edits.len(),
{
    if edits.len() > 0 {
        assert forall|i: int| 0 <= i < edits.drop_last().len() implies phantom == 0
            || !deletes_line(#[trigger] edits.drop_last()[i], phantom) by {
            assert(edits.drop_last()[i] == edits[i]);
        }
        lemma_without_deletes_keeps(edits.drop_last(), phantom);
        assert(edits.last() == edits[edits.len() - 1]);
        assert(edits =~= edits.drop_last().push(edits.last()));
    } else {
        assert(edits =~= seq![]);
    }
}

proof fn lemma_no_stray_in(anchors: Seq<Anchor>, count: nat)
    requires
        forall|i: int| 0 <= i < anchors.len() ==> 1 <= (#[trigger] anchors[i]).line <= count,
    ensures
        first_stray(anchors, count) is None,
    decreases anchors.len(),
{
    if anchors.len() > 0 {
        assert forall|i: int| 0 <= i < anchors.drop_last().len() implies 1 <= (
        #[trigger] anchors.drop_last()[i]).line <= count by {
            assert(anchors.drop_last()[i] == anchors[i]);
        }
        lemma_no_stray_in(anchors.drop_last(), count);
        assert(anchors.last() == anchors[anchors.len() - 1]);
    }
}

/// The lines that an edit names, if it names any, exist.
pub open spec fn on_lines(edit: EditView, count: nat) -> bool {
    forall|k: int|
        0 <= k < edit.anchors().len() ==> 1 <= (#[trigger] edit.anchors()[k]).line <= count
}

proof fn lemma_anchors_on_lines(edits: Seq<EditView>, count: nat)
    requires
        forall|i: int| 0 <= i < edits.len() ==> on_lines(#[trigger] edits[i], count),
    ensures
        forall|i: int|
            0 <= i < anchors_of(edits).len() ==> 1 <= (#[trigger] anchors_of(edits)[i]).line
                <= count,
    decreases edits.len(),
{
    if edits.len() > 0 {
        let front = edits.drop_last();
        assert forall|i: int| 0 <= i < front.len() implies on_lines(#[trigger] front[i], count) by {
            assert(front[i] == edits[i]);
        }
        lemma_anchors_on_lines(front, count);
        let last = edits.last();
        assert(on_lines(edits[edits.len() - 1], count));
        assert forall|i: int| 0 <= i < anchors_of(edits).len() implies 1 <= (
        #[trigger] anchors_of(edits)[i]).line <= count by {
            let n = anchors_of(front).len();
            if i < n {
                assert(anchors_of(edits)[i] == anchors_of(front)[i]);
            } else {
                assert(anchors_of(edits)[i] == last.anchors()[i - n]);
            }
        }
    }
}

/// An insertion, or a deletion of a line that is no phantom, on lines that exist.
pub open spec fn is_plain(edit: EditView, lines: Seq<Seq<char>>) -> bool {
    &&& edit is Insert || edit is Delete
    &&& on_lines(edit, lines.len())
    &&& !deletes_line(edit, phantom_line(lines))
}

/// Plain edits are applied as they are.
proof fn lemma_plain_applied(lines: Seq<Seq<char>>, edits: Seq<EditView>)
    requires
        forall|i: int| 0 <= i < edits.len() ==> is_plain(#[trigger] edits[i], lines),
    ensures
        applied_concrete(lines, edits) == Ok::<_, Seq<char>>(materialized(lines, edits)),
{
    assert forall|i: int| 0 <= i < edits.len() implies on_lines(
        #[trigger] edits[i],
        lines.len(),
    ) by {
        assert(is_plain(edits[i], lines));
    }
    assert forall|i: int| 0 <= i < edits.len() implies !((#[trigger] edits[i]) is Block)
        && !deletes_line(edits[i], phantom_line(lines)) by {
        assert(is_plain(edits[i], lines));
    }
    lemma_without_deletes_keeps(edits, phantom_line(lines));
    lemma_anchors_on_lines(edits, lines.len());
    lemma_no_stray_in(anchors_of(edits), lines.len());
}

/// The lines A to B can be named in a text.
pub open spec fn names_lines(text: Seq<char>, a: usize, b: usize) -> bool {
    1 <= a <= b <= lines_of(text).len() && b - a < MAX_RANGE_LINES
}

/// The lines with those from `first` to `last` replaced. The empty line after a final line feed is
/// no content, and stays.
pub open spec fn with_lines_replaced(
    lines: Seq<Seq<char>>,
    first: usize,
    last: usize,
    rows: Seq<Seq<char>>,
) -> Seq<Seq<char>> {
    let kept = if last == phantom_line(lines) {
        last - 1
    } else {
        last as int
    };
    lines.take(first - 1) + rows + lines.skip(kept)
}

/// Without the deletion of its last line, a replacement ends one line earlier.
proof fn lemma_replacing_less(a: usize, b: usize, rows: Seq<Seq<char>>, line_num: nat, index: nat)
    requires
        1 <= a <= b,
    ensures
        without_deletes(replacing(a, b, rows, line_num, index), b as nat) == replacing(
            a,
            (b - 1) as usize,
            rows,
            line_num,
            index,
        ),
{
    let less = replacing(a, (b - 1) as usize, rows, line_num, index);
    let all = replacing(a, b, rows, line_num, index);
    assert(all.drop_last() =~= less);
    assert(deletes_line(all.last(), b as nat));
    assert forall|i: int| 0 <= i < less.len() implies
        !deletes_line(#[trigger] less[i], b as nat) by {}
    lemma_without_deletes_keeps(less, b as nat);
}

/// Edits that replace lines are applied as such.
proof fn lemma_replacing_applied(
    lines: Seq<Seq<char>>,
    a: usize,
    b: usize,
    rows: Seq<Seq<char>>,
    line_num: nat,
    index: nat,
)
    requires
        1 <= a <= b <= lines.len(),
    ensures
        applied_concrete(lines, replacing(a, b, rows, line_num, index)) matches Ok(view)
            && view.text == join_lines(with_lines_replaced(lines, a, b, rows)),
{
    let edits = replacing(a, b, rows, line_num, index);
    if b == phantom_line(lines) {
        let less = replacing(a, (b - 1) as usize, rows, line_num, index);
        lemma_replacing_less(a, b, rows, line_num, index);
        assert forall|i: int| 0 <= i < less.len() implies
            on_lines(#[trigger] less[i], lines.len()) by {}
        lemma_anchors_on_lines(less, lines.len());
        lemma_no_stray_in(anchors_of(less), lines.len());
        law_replace_lines(lines, a, (b - 1) as usize, rows, line_num, index);
    } else {
        assert forall|i: int| 0 <= i < edits.len() implies
            is_plain(#[trigger] edits[i], lines) by {}
        lemma_plain_applied(lines, edits);
        law_replace_lines(lines, a, b, rows, line_num, index);
    }
}

/// `PUT A.=B:` replaces the lines A to B, both included, by the rows under it, and nothing else:
/// reading the patch and applying what was read gives the text with just these lines replaced.
pub proof fn law_put_replaces_lines(
    text: Seq<char>,
    a: usize,
    b: usize,
    rows: Seq<Seq<char>>,
    clip: ClipboardView,
)
    requires
        names_lines(text, a, b),
        rows.len() > 0,
        forall|i: int| 0 <= i < rows.len() ==> is_row(#[trigger] rows[i]),
    ensures
        parsed(patch_of(put_lines(a, b), rows), false) matches Ok(body) && {
            let (result, after) = applied(text, body.edits, clip);
            &&& result matches Ok(view) && view.text == join_lines(
                with_lines_replaced(lines_of(text), a, b, rows),
            )
            &&& after == clip
        },
{
    law_put_lines_parsed(a, b, rows);
    let lines = lines_of(text);
    let edits = replacing(a, b, rows, 1, 0);
    lemma_replacing_applied(lines, a, b, rows, 1, 0);
    law_run_without_clipboard_edits(edits, lines, clip, seq![], false);
}

/// `PUT <N:`, `PUT >N:` and `PUT >$:` insert the rows under them before line N, after line N or at
/// the tail, and keep every line of the text.
pub proof fn law_put_inserts_lines(
    text: Seq<char>,
    target: Target,
    rows: Seq<Seq<char>>,
    clip: ClipboardView,
)
    requires
        is_gap(target),
        match target {
            Target::InsertBefore { anchor } => anchor.line <= lines_of(text).len(),
            Target::InsertAfter { anchor } => anchor.line <= lines_of(text).len(),
            _ => true,
        },
        rows.len() > 0,
        forall|i: int| 0 <= i < rows.len() ==> is_row(#[trigger] rows[i]),
    ensures
        parsed(patch_of(put_gap(target), rows), false) matches Ok(body) && {
            let (result, after) = applied(text, body.edits, clip);
            let lines = lines_of(text);
            let gap = match target {
                Target::InsertBefore { anchor } => anchor.line - 1,
                Target::InsertAfter { anchor } => anchor.line as int,
                Target::Bof => 0,
                _ => lines.len() as int,
            };
            &&& result matches Ok(view) && view.text == join_lines(
                lines.take(gap) + rows + lines.skip(gap),
            )
            &&& after == clip
        },
{
    law_put_gap_parsed(target, rows);
    let lines = lines_of(text);
    let cursor = gap_cursor(target);
    let edits = inserts(rows, cursor, 1, 0, false, None);
    assert forall|i: int| 0 <= i < edits.len() implies is_plain(#[trigger] edits[i], lines) by {}
    lemma_plain_applied(lines, edits);
    law_run_without_clipboard_edits(edits, lines, clip, seq![], false);
    law_insert_lines(lines, cursor, rows, 1, 0, None);
}

/// Edits that are neither cuts nor pastes add themselves to a run.
proof fn lemma_run_append(
    front: Seq<EditView>,
    back: Seq<EditView>,
    lines: Seq<Seq<char>>,
    clip: ClipboardView,
)
    requires
        forall|i: int| 0 <= i < back.len() ==> !is_clip_edit(#[trigger] back[i]),
        clip_run(front, lines, clip, seq![], false).error is None,
    ensures
        clip_run(front + back, lines, clip, seq![], false) == (ClipRun {
            out: clip_run(front, lines, clip, seq![], false).out + back,
            ..clip_run(front, lines, clip, seq![], false)
        }),
    decreases back.len(),
{
    if back.len() == 0 {
        assert(front + back =~= front);
        let run = clip_run(front, lines, clip, seq![], false);
        assert(run.out + back =~= run.out);
    } else {
        let less = back.drop_last();
        assert forall|i: int| 0 <= i < less.len() implies !is_clip_edit(#[trigger] less[i]) by {
            assert(less[i] == back[i]);
        }
        lemma_run_append(front, less, lines, clip);
        assert((front + back).drop_last() =~= front + less);
        assert((front + back).last() == back[back.len() - 1]);
        let run = clip_run(front, lines, clip, seq![], false);
        assert(run.out + back =~= (run.out + less).push(back.last()));
    }
}

/// A cut of lines and their deletion, as edits.
pub open spec fn cutting(a: usize, b: usize) -> Seq<EditView> {
    seq![EditView::Cut { range: range_of(a, b), register: None, line_num: 1, index: 0 }] + deletes(
        a,
        b,
        1,
        1,
    )
}

proof fn lemma_cutting_applied(text: Seq<char>, a: usize, b: usize, clip: ClipboardView)
    requires
        1 <= a <= b <= lines_of(text).len(),
    ensures
        ({
            let (result, after) = applied(text, cutting(a, b), clip);
            let lines = lines_of(text);
            &&& result matches Ok(view) && view.text == join_lines(
                with_lines_replaced(lines, a, b, seq![]),
            )
            &&& after.lines == Some(lines.subrange(a - 1, b as int))
            &&& after.named == clip.named
        }),
{
    let lines = lines_of(text);
    let range = range_of(a, b);
    let cut = EditView::Cut { range, register: None, line_num: 1, index: 0 };
    let gone = deletes(a, b, 1, 1);
    let front = seq![cut];
    assert(front.drop_last() =~= seq![]);
    reveal_with_fuel(clip_run, 2);
    assert(front.last() == cut);
    let run = clip_run(front, lines, clip, seq![], false);
    assert(run == clip_step(
        ClipRun { clip, warnings: seq![], out: seq![], next: 0, error: None },
        cut,
        lines,
        false,
    ));
    assert(run.error is None);
    lemma_run_append(front, gone, lines, clip);
    assert(run.out + gone =~= gone);
    lemma_replacing_applied(lines, a, b, seq![], 1, 1);
    assert(replacing(a, b, seq![], 1, 1) =~= gone);
}

/// `CUT A.=B` deletes the lines A to B, and nothing else, and leaves them in the anonymous register.
pub proof fn law_cut_deletes_and_captures(text: Seq<char>, a: usize, b: usize, clip: ClipboardView)
    requires
        names_lines(text, a, b),
    ensures
        parsed(cut_lines(a, b), false) matches Ok(body) && {
            let (result, after) = applied(text, body.edits, clip);
            let lines = lines_of(text);
            &&& result matches Ok(view) && view.text == join_lines(
                with_lines_replaced(lines, a, b, seq![]),
            )
            &&& after.lines == Some(lines.subrange(a - 1, b as int))
            &&& after.named == clip.named
        },
{
    law_cut_lines_parsed(a, b);
    lemma_cutting_applied(text, a, b, clip);
}

// ---------------------------------------------------------------------------------------------
// Blocks

/// `PUT N*:`
pub open spec fn put_block(n: usize) -> Seq<char> {
    "PUT "@ + decimal(n as nat) + "*:"@
}

/// `PUT >N*:`
pub open spec fn put_after_block(n: usize) -> Seq<char> {
    "PUT >"@ + decimal(n as nat) + "*:"@
}

/// `CUT N*`
pub open spec fn cut_block(n: usize) -> Seq<char> {
    "CUT "@ + decimal(n as nat) + "*"@
}

/// A line made of a fixed head, a number and a fixed tail is one row of a patch.
proof fn lemma_framed_is_row(head: Seq<char>, n: nat, tail: Seq<char>)
    requires
        all_of(head, CharClass::InLine),
        all_of(tail, CharClass::InLine),
        tail.len() > 0,
        tail.last() != '\r',
    ensures
        is_row(head + decimal(n) + tail),
{
    let d = decimal(n);
    let line = head + d + tail;
    lemma_decimal_is_row(n);
    assert forall|i: int| 0 <= i < line.len() implies class_has(
        CharClass::InLine,
        #[trigger] line[i],
    ) by {
        if i < head.len() {
            assert(line[i] == head[i]);
        } else if i < head.len() + d.len() {
            assert(line[i] == d[i - head.len()]);
            assert(class_has(CharClass::Digit, d[i - head.len()]));
        } else {
            assert(line[i] == tail[i - head.len() - d.len()]);
        }
    }
    assert(line.last() == tail.last());
}

/// `N*` and what ends the locator.
proof fn lemma_block_range(n: usize, end: Seq<char>)
    requires
        n > 0,
    ensures
        range_at(decimal(n as nat) + (seq!['*'] + end)) == Some(
            RangeScan { range: range_of(n, n), had_sep: false, rest: seq!['*'] + end },
        ),
        !class_has(CharClass::Blank, (decimal(n as nat) + (seq!['*'] + end))[0]),
        class_has(CharClass::Digit, (decimal(n as nat) + (seq!['*'] + end))[0]),
{
    let rest = seq!['*'] + end;
    let s = decimal(n as nat) + rest;
    assert(rest[0] == '*');
    lemma_number_at_decimal(n, rest);
    lemma_no_blanks(s);
    lemma_leading_is(rest, CharClass::Separator, 0);
    lemma_no_blanks(rest);
}

proof fn lemma_put_block(n: usize)
    requires
        n > 0,
    ensures
        is_row(put_block(n)),
        put_block(n).len() > 0,
        line_fed(empty_body(), put_block(n), 1) == Ok::<BodyView, Seq<char>>(
            BodyView {
                pending: Some(
                    PendingView {
                        op: OpView {
                            target: Target::Block { anchor: Anchor { line: n } },
                            register: None,
                            had_colon: true,
                        },
                        line_num: 1,
                        payloads: seq![],
                        deferred: seq![],
                    },
                ),
                ..empty_body()
            },
        ),
{
    reveal_strlit("PUT ");
    reveal_strlit("*:");
    let line = put_block(n);
    let d = decimal(n as nat);
    assert(line[0] == 'P');
    lemma_plain_line(line);
    assert("PUT "@.is_prefix_of(line));
    let locator = line.skip(4);
    assert(locator =~= d + (seq!['*'] + seq![':']));
    lemma_block_range(n, seq![':']);
    lemma_no_blanks(locator);
    assert((seq!['*'] + seq![':']).skip(1) =~= seq![':']);
    lemma_locator_end(true);
    lemma_framed_is_row("PUT "@, n as nat, "*:"@);
}

proof fn lemma_put_after_block(n: usize)
    requires
        n > 0,
    ensures
        is_row(put_after_block(n)),
        put_after_block(n).len() > 0,
        line_fed(empty_body(), put_after_block(n), 1) == Ok::<BodyView, Seq<char>>(
            BodyView {
                pending: Some(
                    PendingView {
                        op: OpView {
                            target: Target::InsertAfterBlock { anchor: Anchor { line: n } },
                            register: None,
                            had_colon: true,
                        },
                        line_num: 1,
                        payloads: seq![],
                        deferred: seq![],
                    },
                ),
                ..empty_body()
            },
        ),
{
    reveal_strlit("PUT ");
    reveal_strlit("PUT >");
    reveal_strlit("*:");
    let line = put_after_block(n);
    let d = decimal(n as nat);
    let rest = seq!['*', ':'];
    assert(line[0] == 'P');
    lemma_plain_line(line);
    assert("PUT "@.is_prefix_of(line));
    let locator = line.skip(4);
    assert(locator =~= seq!['>'] + d + rest);
    lemma_no_blanks(locator);
    let t = locator.skip(1);
    assert(t =~= d + rest);
    lemma_number_at_decimal(n, rest);
    lemma_no_blanks(t);
    assert(t[0] != '$');
    assert(rest.skip(1) =~= seq![':']);
    lemma_locator_end(true);
    lemma_framed_is_row("PUT >"@, n as nat, "*:"@);
}

proof fn lemma_cut_block(n: usize)
    requires
        n > 0,
    ensures
        is_row(cut_block(n)),
        cut_block(n).len() > 0,
        line_fed(empty_body(), cut_block(n), 1) == Ok::<BodyView, Seq<char>>(
            BodyView {
                pending: Some(
                    PendingView {
                        op: OpView {
                            target: Target::CutBlock { anchor: Anchor { line: n } },
                            register: None,
                            had_colon: false,
                        },
                        line_num: 1,
                        payloads: seq![],
                        deferred: seq![],
                    },
                ),
                ..empty_body()
            },
        ),
{
    reveal_strlit("PUT ");
    reveal_strlit("CUT ");
    reveal_strlit("*");
    let line = cut_block(n);
    let d = decimal(n as nat);
    assert(line[0] == 'C');
    lemma_plain_line(line);
    assert("CUT "@.is_prefix_of(line));
    let locator = line.skip(4);
    assert(locator =~= d + (seq!['*'] + Seq::<char>::empty()));
    lemma_block_range(n, Seq::<char>::empty());
    assert((seq!['*'] + Seq::<char>::empty()).skip(1) =~= seq![]);
    lemma_locator_end(false);
    lemma_framed_is_row("CUT "@, n as nat, "*"@);
}

/// `PUT N*:` and `PUT >N*:` with rows, and `CUT N*`, are read as edits of the block that begins on
/// line N.
pub proof fn law_block_ops_parsed(n: usize, rows: Seq<Seq<char>>)
    requires
        n >= 1,
        rows.len() > 0,
        forall|i: int| 0 <= i < rows.len() ==> is_row(#[trigger] rows[i]),
    ensures
        parsed(patch_of(put_block(n), rows), false) matches Ok(body) && body.edits == block_edit(
            Anchor { line: n },
            rows,
            BlockMode::Replace,
            None,
            1,
            0,
        ) && body.file_op is None,
        parsed(patch_of(put_after_block(n), rows), false) matches Ok(body) && body.edits
            == block_edit(Anchor { line: n }, rows, BlockMode::InsertAfter, None, 1, 0)
            && body.file_op is None,
        parsed(cut_block(n), false) matches Ok(body) && body.edits == block_edit(
            Anchor { line: n },
            seq![],
            BlockMode::Cut,
            None,
            1,
            0,
        ) && body.file_op is None,
{
    let anchor = Anchor { line: n };
    lemma_put_block(n);
    lemma_patch_parsed(
        put_block(n),
        OpView { target: Target::Block { anchor }, register: None, had_colon: true },
        rows,
    );
    let replace = block_edit(anchor, rows, BlockMode::Replace, None, 1, 0);
    assert(Seq::<EditView>::empty() + replace =~= replace);
    lemma_put_after_block(n);
    lemma_patch_parsed(
        put_after_block(n),
        OpView { target: Target::InsertAfterBlock { anchor }, register: None, had_colon: true },
        rows,
    );
    let insert = block_edit(anchor, rows, BlockMode::InsertAfter, None, 1, 0);
    assert(Seq::<EditView>::empty() + insert =~= insert);
    lemma_cut_block(n);
    lemma_patch_parsed(
        cut_block(n),
        OpView { target: Target::CutBlock { anchor }, register: None, had_colon: false },
        seq![],
    );
    assert(seq![cut_block(n)] + marked(seq![]) =~= seq![cut_block(n)]);
    assert(patch_of(cut_block(n), seq![]) == cut_block(n));
    let cut = block_edit(anchor, seq![], BlockMode::Cut, None, 1, 0);
    assert(Seq::<EditView>::empty() + cut =~= cut);
}

/// One block edit, resolved.
pub proof fn lemma_block_resolved(
    edit: EditView,
    text: Seq<char>,
    path: Seq<char>,
    n: usize,
    end: usize,
)
    requires
        edit is Block,
        edit->Block_anchor == (Anchor { line: n }),
        block_span(path, text, n as nat) == Some((n as nat, end as nat)),
    ensures
        block_run(seq![edit], text, path, true, seq![], seq![]) == (BlockRun {
            resolutions: seq![BlockResolution { line: n, start: n, end }],
            warnings: seq![],
            out: block_edits(
                edit->mode,
                edit->payloads,
                edit->Block_register,
                n,
                end,
                edit->Block_line_num,
                0,
            ),
            next: block_edits(
                edit->mode,
                edit->payloads,
                edit->Block_register,
                n,
                end,
                edit->Block_line_num,
                0,
            ).len(),
            error: None,
        }),
{
    let edits = seq![edit];
    assert(edits.drop_last() =~= seq![]);
    assert(edits.last() == edit);
    reveal_with_fuel(block_run, 2);
    let more = block_edits(
        edit->mode,
        edit->payloads,
        edit->Block_register,
        n,
        end,
        edit->Block_line_num,
        0,
    );
    let first = Seq::<BlockResolution>::empty().push(BlockResolution { line: n, start: n, end });
    assert(first =~= seq![BlockResolution { line: n, start: n, end }]);
    assert(Seq::<EditView>::empty() + more =~= more);
}

/// `PUT N*:` replaces the lines of the block that begins on line N by the rows under it, and
/// nothing else; the block is reported.
pub proof fn law_put_replaces_block(
    path: Seq<char>,
    text: Seq<char>,
    n: usize,
    end: usize,
    rows: Seq<Seq<char>>,
    clip: ClipboardView,
)
    requires
        block_span(path, text, n as nat) == Some((n as nat, end as nat)),
        rows.len() > 0,
        forall|i: int| 0 <= i < rows.len() ==> is_row(#[trigger] rows[i]),
    ensures
        parsed(patch_of(put_block(n), rows), false) matches Ok(body) && {
            let run = block_run(body.edits, text, path, true, seq![], seq![]);
            let (result, after) = applied(text, run.out, clip);
            &&& run.error is None
            &&& run.resolutions == seq![BlockResolution { line: n, start: n, end }]
            &&& result matches Ok(view) && view.text == join_lines(
                with_lines_replaced(lines_of(text), n, end, rows),
            )
            &&& after == clip
        },
{
    law_block_lies_in_text(path, text, n as nat);
    law_block_ops_parsed(n, rows);
    let edit = block_edit(Anchor { line: n }, rows, BlockMode::Replace, None, 1, 0)[0];
    lemma_block_resolved(edit, text, path, n, end);
    let lines = lines_of(text);
    let edits = replacing(n, end, rows, 1, 0);
    lemma_replacing_applied(lines, n, end, rows, 1, 0);
    law_run_without_clipboard_edits(edits, lines, clip, seq![], false);
}

/// `PUT >N*:` inserts the rows under it after the block that begins on line N, and keeps every line
/// of the text.
pub proof fn law_put_inserts_after_block(
    path: Seq<char>,
    text: Seq<char>,
    n: usize,
    end: usize,
    rows: Seq<Seq<char>>,
    clip: ClipboardView,
)
    requires
        block_span(path, text, n as nat) == Some((n as nat, end as nat)),
        rows.len() > 0,
        forall|i: int| 0 <= i < rows.len() ==> is_row(#[trigger] rows[i]),
    ensures
        parsed(patch_of(put_after_block(n), rows), false) matches Ok(body) && {
            let run = block_run(body.edits, text, path, true, seq![], seq![]);
            let (result, after) = applied(text, run.out, clip);
            let lines = lines_of(text);
            &&& run.error is None
            &&& result matches Ok(view) && view.text == join_lines(
                lines.take(end as int) + rows + lines.skip(end as int),
            )
            &&& after == clip
        },
{
    law_block_lies_in_text(path, text, n as nat);
    law_block_ops_parsed(n, rows);
    let edit = block_edit(Anchor { line: n }, rows, BlockMode::InsertAfter, None, 1, 0)[0];
    lemma_block_resolved(edit, text, path, n, end);
    let lines = lines_of(text);
    let cursor = Cursor::AfterAnchor { anchor: Anchor { line: end } };
    let edits = inserts(rows, cursor, 1, 0, false, Some(n));
    assert forall|i: int| 0 <= i < edits.len() implies is_plain(#[trigger] edits[i], lines) by {}
    lemma_plain_applied(lines, edits);
    law_run_without_clipboard_edits(edits, lines, clip, seq![], false);
    law_insert_lines(lines, cursor, rows, 1, 0, Some(n));
}

/// `CUT N*` deletes the lines of the block that begins on line N, and nothing else, and leaves them
/// in the anonymous register.
pub proof fn law_cut_deletes_block(
    path: Seq<char>,
    text: Seq<char>,
    n: usize,
    end: usize,
    clip: ClipboardView,
)
    requires
        block_span(path, text, n as nat) == Some((n as nat, end as nat)),
    ensures
        parsed(cut_block(n), false) matches Ok(body) && {
            let run = block_run(body.edits, text, path, true, seq![], seq![]);
            let (result, after) = applied(text, run.out, clip);
            let lines = lines_of(text);
            &&& run.error is None
            &&& result matches Ok(view) && view.text == join_lines(
                with_lines_replaced(lines, n, end, seq![]),
            )
            &&& after.lines == Some(lines.subrange(n - 1, end as int))
            &&& after.named == clip.named
        },
{
    law_block_lies_in_text(path, text, n as nat);
    law_block_ops_parsed(n, seq![seq![]]);
    let edit = block_edit(Anchor { line: n }, seq![], BlockMode::Cut, None, 1, 0)[0];
    lemma_block_resolved(edit, text, path, n, end);
    lemma_cutting_applied(text, n, end, clip);
}

// ---------------------------------------------------------------------------------------------
// Whole files

/// `REM` is read as the deletion of the file.
pub proof fn law_rem_parsed()
    ensures
        parsed("REM"@, false) matches Ok(body) && body.edits.len() == 0 && body.file_op == Some(
            FileOpView::Rem,
        ),
{
    reveal_strlit("REM");
    reveal_strlit("PUT ");
    reveal_strlit("CUT ");
    let line = "REM"@;
    lemma_plain_line(line);
    lemma_leading_is(line, CharClass::White, 0);
    assert(line.skip(0) =~= line);
    lemma_trailing_is(line, CharClass::White, 0);
    assert(line.take(line.len() as int) =~= line);
    lemma_one_line_fed(line);
}

/// `MV DEST` is read as a move of the file.
pub proof fn law_mv_parsed(dest: Seq<char>)
    requires
        dest.len() > 0,
        all_of(dest, CharClass::InLine),
        !is_white(dest[0]),
        !is_white(dest.last()),
        dest[0] != '"' && dest[0] != '\'',
    ensures
        parsed("MV "@ + dest, false) matches Ok(body) && body.edits.len() == 0 && body.file_op
            == Some(FileOpView::Move { dest }),
{
    reveal_strlit("MV ");
    reveal_strlit("PUT ");
    reveal_strlit("CUT ");
    reveal_strlit("REM");
    let line = "MV "@ + dest;
    assert(line[0] == 'M');
    lemma_plain_line(line);
    lemma_trimmed_first(line);
    assert("MV "@.is_prefix_of(line));
    assert(line.skip(3) =~= dest);
    lemma_leading_is(dest, CharClass::White, 0);
    assert(dest.skip(0) =~= dest);
    lemma_trailing_is(dest, CharClass::White, 0);
    assert(dest.take(dest.len() as int) =~= dest);
    assert forall|i: int| 0 <= i < line.len() implies class_has(
        CharClass::InLine,
        #[trigger] line[i],
    ) by {
        if i >= 3 {
            assert(line[i] == dest[i - 3]);
        }
    }
    assert(line.last() == dest.last());
    lemma_one_line_fed(line);
}

/// A text of one line is read as that line.
proof fn lemma_one_line_fed(line: Seq<char>)
    requires
        is_row(line),
        line.len() > 0,
    ensures
        lines_fed(input_lines(line)) == line_fed(empty_body(), line, 1),
{
    let lines = seq![line];
    assert(join_lines(lines) == line);
    lemma_input_lines_of(lines);
    assert(lines.drop_last() =~= seq![]);
    reveal_with_fuel(lines_fed, 2);
}

/// A line of a section body: neither a header of the next section nor a marker.
pub open spec fn is_body_line(line: Seq<char>) -> bool {
    &&& is_row(line)
    &&& header_of(line) is None
    &&& line != "*** Begin Patch"@
    &&& line != "*** End Patch"@
    &&& line != "*** Abort"@
}

proof fn lemma_section_fed(header: Seq<char>, path: Seq<char>, tag: Seq<char>, lines: Seq<Seq<char>>)
    requires
        is_row(header),
        header.len() > 0,
        header[0] == '[',
        header_of(header) == Some((path, Some(tag))),
        forall|i: int| 0 <= i < lines.len() ==> is_body_line(#[trigger] lines[i]),
    ensures
        input_run(seq![header] + lines) == (InputView {
            sections: seq![],
            current: Some((path, Some(tag))),
            body: lines,
            aborted: false,
        }),
    decreases lines.len(),
{
    let all = seq![header] + lines;
    if lines.len() == 0 {
        reveal_strlit("*** Begin Patch");
        reveal_strlit("*** End Patch");
        reveal_strlit("*** Abort");
        assert(all.drop_last() =~= seq![]);
        reveal_with_fuel(input_run, 2);
        assert(lines =~= seq![]);
    } else {
        let less = lines.drop_last();
        assert forall|i: int| 0 <= i < less.len() implies is_body_line(#[trigger] less[i]) by {
            assert(less[i] == lines[i]);
        }
        lemma_section_fed(header, path, tag, less);
        assert(all.drop_last() =~= seq![header] + less);
        assert(all.last() == lines.last());
        assert(is_body_line(lines[lines.len() - 1]));
        assert(less.push(lines.last()) =~= lines);
    }
}

/// A patch of one header `[PATH#TAG]` and the lines of a body has one section: the path, the tag in
/// upper case, and that body.
pub proof fn law_section_read(path: Seq<char>, tag: Seq<char>, lines: Seq<Seq<char>>)
    requires
        path.len() > 0,
        all_of(path, CharClass::InLine),
        !is_white(path[0]),
        !is_white(path.last()),
        tag.len() == 4,
        all_of(tag, CharClass::Hex),
        lines.len() > 0,
        lines.last().len() > 0,
        forall|i: int| 0 <= i < lines.len() ==> is_body_line(#[trigger] lines[i]),
    ensures
        patch_sections(join_lines(seq![header_text(path, tag)] + lines)) == seq![
            SectionView { path, file_hash: Some(uppercase(tag)), body: join_lines(lines) },
        ],
{
    let header = header_text(path, tag);
    law_header_round_trip(path, tag);
    assert forall|i: int| 0 <= i < header.len() implies class_has(
        CharClass::InLine,
        #[trigger] header[i],
    ) by {
        if 0 < i <= path.len() {
            assert(header[i] == path[i - 1]);
        } else if path.len() + 1 < i < header.len() - 1 {
            assert(header[i] == tag[i - path.len() - 2]);
            assert(class_has(CharClass::Hex, tag[i - path.len() - 2]));
        }
    }
    assert(header.last() == ']');
    let all = seq![header] + lines;
    assert forall|i: int| 0 <= i < all.len() implies is_row(#[trigger] all[i]) by {
        if i > 0 {
            assert(all[i] == lines[i - 1]);
        }
    }
    lemma_input_lines_of(all);
    lemma_join_cons(header, lines, newline());
    let text = join_lines(all);
    assert(text[0] == '[');
    lemma_leading_is(text, CharClass::LineBreak, 0);
    assert(text.skip(0) =~= text);
    lemma_section_fed(header, path, uppercase(tag), lines);
}

} // verus!
