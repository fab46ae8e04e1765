//! What is read of a patch besides its ops: sections, file ops, marks around the patch, and what is
//! refused.

use crate::format::{header_of, header_text, law_header_round_trip};
use crate::language::{
    is_body_line, is_row, lemma_input_lines_of, lemma_plain_line, lemma_trimmed_first,
};
use crate::notation::{
    all_meant, can_write, is_proper, law_header_is_read, lemma_fed_push, lemma_meant, lemma_ops_fed,
    lemma_patch_lines_are_rows, lemma_rows_collected, lemma_written_is_row, meant, op_lines,
    patch_lines, written, OpText,
};
use crate::parse::{
    body_finished, file_op_fed, flushed, input_fed, input_lines, input_run, line_fed, lines_fed,
    op_done, parsed, patch_sections, section_ended, BodyView, InputView,
};
use crate::rows::{law_marked_rows_are_kept, minus_resolved, prefixes_stripped, row_texts, RowView};
use crate::scan::{range_error, OpView, Target};
use crate::text::{
    all_of, class_has, decimal, is_white, join_lines, law_lines_of_join, lemma_join_cons,
    lemma_leading_is, lemma_trailing_is, newline, trimmed_end, uppercase, CharClass,
};
use crate::types::{
    deletes, BlockMode, EditView, FileOpView, ParsedRange, SectionView, MAX_RANGE_LINES,
};
use vstd::prelude::*;

verus! {

// ---------------------------------------------------------------------------------------------
// Sections

/// A section as it is written.
pub struct SectionText {
    pub path: Seq<char>,
    pub tag: Seq<char>,
    pub lines: Seq<Seq<char>>,
}

pub open spec fn is_proper_section(s: SectionText) -> bool {
    &&& s.path.len() > 0
    &&& all_of(s.path, CharClass::InLine)
    &&& !is_white(s.path[0])
    &&& !is_white(s.path.last())
    &&& s.tag.len() == 4
    &&& all_of(s.tag, CharClass::Hex)
    &&& forall|i: int| 0 <= i < s.lines.len() ==> is_body_line(#[trigger] s.lines[i])
}

pub open spec fn section_lines(sections: Seq<SectionText>) -> Seq<Seq<char>>
    decreases sections.len(),
{
    if sections.len() == 0 {
        seq![]
    } else {
        let s = sections.last();
        section_lines(sections.drop_last()) + (seq![header_text(s.path, s.tag)] + s.lines)
    }
}

/// What is read of a section.
pub open spec fn section_meant(s: SectionText) -> SectionView {
    SectionView { path: s.path, file_hash: Some(uppercase(s.tag)), body: join_lines(s.lines) }
}

proof fn lemma_header_is_row(s: SectionText)
    requires
        is_proper_section(s),
    ensures
        is_row(header_text(s.path, s.tag)),
        header_text(s.path, s.tag)[0] == '[',
        header_of(header_text(s.path, s.tag)) == Some((s.path, Some(uppercase(s.tag)))),
{
    let header = header_text(s.path, s.tag);
    law_header_round_trip(s.path, s.tag);
    assert forall|i: int| 0 <= i < header.len() implies class_has(
        CharClass::InLine,
        #[trigger] header[i],
    ) by {
        if 0 < i <= s.path.len() {
            assert(header[i] == s.path[i - 1]);
        } else if s.path.len() + 1 < i < header.len() - 1 {
            assert(header[i] == s.tag[i - s.path.len() - 2]);
            assert(class_has(CharClass::Hex, s.tag[i - s.path.len() - 2]));
        }
    }
    assert(header.last() == ']');
}

proof fn lemma_run_push(lines: Seq<Seq<char>>, line: Seq<char>)
    ensures
        input_run(lines.push(line)) == input_fed(input_run(lines), line),
{
    assert(lines.push(line).drop_last() =~= lines);
}

proof fn lemma_body_run(before: Seq<Seq<char>>, lines: Seq<Seq<char>>)
    requires
        input_run(before).current is Some,
        !input_run(before).aborted,
        forall|i: int| 0 <= i < lines.len() ==> is_body_line(#[trigger] lines[i]),
    ensures
        input_run(before + lines) == (InputView {
            body: input_run(before).body + lines,
            ..input_run(before)
        }),
    decreases lines.len(),
{
    let had = input_run(before).body;
    if lines.len() == 0 {
        assert(before + lines =~= before);
        assert(had + lines =~= had);
    } else {
        let less = lines.drop_last();
        assert forall|i: int| 0 <= i < less.len() implies is_body_line(#[trigger] less[i]) by {
            assert(less[i] == lines[i]);
        }
        lemma_body_run(before, less);
        assert(before + lines =~= (before + less).push(lines.last()));
        lemma_run_push(before + less, lines.last());
        assert(is_body_line(lines[lines.len() - 1]));
        assert((had + less).push(lines.last()) =~= had + lines);
    }
}

#[verifier::rlimit(40)]
proof fn lemma_sections_run(sections: Seq<SectionText>)
    requires
        forall|i: int| 0 <= i < sections.len() ==> is_proper_section(#[trigger] sections[i]),
    ensures
        ({
            let run = input_run(section_lines(sections));
            &&& !run.aborted
            &&& sections.len() == 0 ==> run.current is None && run.body.len() == 0
            &&& section_ended(run).sections == Seq::new(
                sections.len(),
                |i: int| section_meant(sections[i]),
            )
        }),
    decreases sections.len(),
{
    if sections.len() == 0 {
        assert(section_ended(input_run(section_lines(sections))).sections =~= Seq::new(
            sections.len(),
            |i: int| section_meant(sections[i]),
        ));
    } else {
        let front = sections.drop_last();
        let s = sections.last();
        assert(s == sections[sections.len() - 1]);
        assert forall|i: int| 0 <= i < front.len() implies is_proper_section(
            #[trigger] front[i],
        ) by {
            assert(front[i] == sections[i]);
        }
        lemma_sections_run(front);
        lemma_header_is_row(s);
        let header = header_text(s.path, s.tag);
        let before = section_lines(front);
        reveal_strlit("*** Begin Patch");
        reveal_strlit("*** End Patch");
        reveal_strlit("*** Abort");
        lemma_run_push(before, header);
        let opened = before.push(header);
        assert(input_run(opened).body =~= seq![]);
        lemma_body_run(opened, s.lines);
        assert(opened + s.lines =~= section_lines(sections));
        assert(Seq::<Seq<char>>::empty() + s.lines =~= s.lines);
        assert(section_ended(input_run(section_lines(sections))).sections =~= Seq::new(
            sections.len(),
            |i: int| section_meant(sections[i]),
        ));
    }
}

proof fn lemma_section_lines_are_rows(sections: Seq<SectionText>)
    requires
        forall|i: int| 0 <= i < sections.len() ==> is_proper_section(#[trigger] sections[i]),
    ensures
        forall|i: int|
            0 <= i < section_lines(sections).len() ==> is_row(#[trigger] section_lines(sections)[i]),
        sections.len() > 0 ==> section_lines(sections).len() > 0 && section_lines(sections)[0].len()
            > 0 && section_lines(sections)[0][0] == '[',
    decreases sections.len(),
{
    if sections.len() > 0 {
        let front = sections.drop_last();
        let s = sections.last();
        assert(s == sections[sections.len() - 1]);
        assert forall|i: int| 0 <= i < front.len() implies is_proper_section(
            #[trigger] front[i],
        ) by {
            assert(front[i] == sections[i]);
        }
        lemma_section_lines_are_rows(front);
        lemma_header_is_row(s);
        let a = section_lines(front);
        let b = seq![header_text(s.path, s.tag)] + s.lines;
        let all = section_lines(sections);
        assert forall|i: int| 0 <= i < all.len() implies is_row(#[trigger] all[i]) by {
            if i < a.len() {
                assert(all[i] == a[i]);
            } else {
                assert(all[i] == b[i - a.len()]);
                if i > a.len() {
                    assert(b[i - a.len()] == s.lines[i - a.len() - 1]);
                }
            }
        }
        if front.len() > 0 {
            assert(all[0] == a[0]);
        } else {
            assert(all[0] == b[0]);
        }
    }
}

/// A patch of any sections, one after the other, is read as those sections, in their order: each
/// with its path, its tag in upper case and its own body.
pub proof fn law_sections_are_read(sections: Seq<SectionText>)
    requires
        sections.len() > 0,
        forall|i: int| 0 <= i < sections.len() ==> is_proper_section(#[trigger] sections[i]),
        sections.last().lines.len() > 0 ==> sections.last().lines.last().len() > 0,
    ensures
        patch_sections(join_lines(section_lines(sections))) == Seq::new(
            sections.len(),
            |i: int| section_meant(sections[i]),
        ),
{
    let lines = section_lines(sections);
    let s = sections.last();
    lemma_section_lines_are_rows(sections);
    lemma_sections_run(sections);
    assert(s == sections[sections.len() - 1]);
    lemma_header_is_row(s);
    let b = seq![header_text(s.path, s.tag)] + s.lines;
    assert(lines.last() == b.last());
    lemma_input_lines_of(lines);
    let text = join_lines(lines);
    if lines.len() == 1 {
        assert(text == lines[0]);
    } else {
        assert(lines =~= seq![lines[0]] + lines.skip(1));
        lemma_join_cons(lines[0], lines.skip(1), newline());
    }
    assert(text[0] == '[');
    lemma_leading_is(text, CharClass::LineBreak, 0);
    assert(text.skip(0) =~= text);
}

proof fn lemma_run_resumes(a: Seq<Seq<char>>, b: Seq<Seq<char>>, c: Seq<Seq<char>>)
    requires
        input_run(a) == input_run(b),
    ensures
        input_run(a + c) == input_run(b + c),
    decreases c.len(),
{
    if c.len() == 0 {
        assert(a + c =~= a);
        assert(b + c =~= b);
    } else {
        lemma_run_resumes(a, b, c.drop_last());
        assert((a + c).drop_last() =~= a + c.drop_last());
        assert((b + c).drop_last() =~= b + c.drop_last());
    }
}

proof fn lemma_aborted(a: Seq<Seq<char>>, b: Seq<Seq<char>>)
    requires
        input_run(a).aborted,
    ensures
        input_run(a + b) == input_run(a),
    decreases b.len(),
{
    if b.len() == 0 {
        assert(a + b =~= a);
    } else {
        lemma_aborted(a, b.drop_last());
        assert((a + b).drop_last() =~= a + b.drop_last());
    }
}

/// The marks around a patch are passed over, wherever they stand. Behind a mark that aborts the
/// patch nothing is read any more.
pub proof fn law_marks_are_passed_over(before: Seq<Seq<char>>, after: Seq<Seq<char>>)
    ensures
        input_run(before + seq!["*** Begin Patch"@] + after) == input_run(before + after),
        input_run(before + seq!["*** End Patch"@] + after) == input_run(before + after),
        section_ended(input_run(before + seq!["*** Abort"@] + after)).sections == section_ended(
            input_run(before),
        ).sections,
{
    reveal_strlit("*** Begin Patch");
    reveal_strlit("*** End Patch");
    reveal_strlit("*** Abort");
    let begin = before + seq!["*** Begin Patch"@];
    assert(begin =~= before.push("*** Begin Patch"@));
    lemma_run_push(before, "*** Begin Patch"@);
    lemma_run_resumes(begin, before, after);
    let end = before + seq!["*** End Patch"@];
    assert(end =~= before.push("*** End Patch"@));
    lemma_run_push(before, "*** End Patch"@);
    lemma_run_resumes(end, before, after);
    let abort = before + seq!["*** Abort"@];
    assert(abort =~= before.push("*** Abort"@));
    lemma_run_push(before, "*** Abort"@);
    assert("*** Abort"@ != "*** Begin Patch"@) by {
        assert("*** Abort"@.len() != "*** Begin Patch"@.len());
    }
    assert("*** Abort"@ != "*** End Patch"@) by {
        assert("*** Abort"@.len() != "*** End Patch"@.len());
    }
    if input_run(before).aborted {
        lemma_aborted(before, seq!["*** Abort"@] + after);
        assert(before + (seq!["*** Abort"@] + after) =~= abort + after);
    } else {
        lemma_aborted(abort, after);
    }
}

// ---------------------------------------------------------------------------------------------
// What follows ops

spec fn ops_body(ops: Seq<OpText>) -> BodyView {
    lines_fed(patch_lines(ops))->Ok_0
}

proof fn lemma_then(ops: Seq<OpText>, line: Seq<char>)
    requires
        forall|i: int| 0 <= i < ops.len() ==> is_proper(#[trigger] ops[i]),
        is_row(line),
        line.len() > 0,
    ensures
        lines_fed(input_lines(join_lines(patch_lines(ops).push(line)))) == line_fed(
            ops_body(ops),
            line,
            patch_lines(ops).len() + 1,
        ),
        ops_body(ops).file_op is None,
        flushed(ops_body(ops)) matches Ok(done) && done.edits == all_meant(ops)
            && done.pending is None && done.file_op is None,
{
    lemma_ops_fed(ops);
    lemma_patch_lines_are_rows(ops);
    let all = patch_lines(ops).push(line);
    assert forall|i: int| 0 <= i < all.len() implies is_row(#[trigger] all[i]) by {
        if i < patch_lines(ops).len() {
            assert(all[i] == patch_lines(ops)[i]);
        }
    }
    lemma_input_lines_of(all);
    lemma_fed_push(patch_lines(ops), line);
}

proof fn lemma_mv_line(dest: Seq<char>, path: Seq<char>)
    requires
        dest.len() > 0,
        all_of(dest, CharClass::InLine),
        !is_white(dest[0]),
        !is_white(dest.last()),
        path == dest && dest[0] != '"' && dest[0] != '\'' || (dest == seq!['"'] + path + seq!['"']
            || dest == seq!['\''] + path + seq!['\'']),
    ensures
        is_row("MV "@ + dest),
        forall|body: BodyView, n: nat| #[trigger]
            line_fed(body, "MV "@ + dest, n) == file_op_fed(
                body,
                FileOpView::Move { dest: path },
                n,
            ),
{
    reveal_strlit("MV ");
    reveal_strlit("PUT ");
    reveal_strlit("CUT ");
    reveal_strlit("REM");
    let line = "MV "@ + dest;
    assert(line[0] == 'M');
    lemma_plain_line(line);
    lemma_trimmed_first(line);
    assert("MV "@.is_prefix_of(line));
    assert(line.skip(3) =~= dest);
    lemma_leading_is(dest, CharClass::White, 0);
    assert(dest.skip(0) =~= dest);
    lemma_trailing_is(dest, CharClass::White, 0);
    assert(dest.take(dest.len() as int) =~= dest);
    assert forall|i: int| 0 <= i < line.len() implies class_has(
        CharClass::InLine,
        #[trigger] line[i],
    ) by {
        if i >= 3 {
            assert(line[i] == dest[i - 3]);
        }
    }
    assert(line.last() == dest.last());
    if !(path == dest && dest[0] != '"' && dest[0] != '\'') {
        assert(dest.subrange(1, dest.len() - 1) =~= path);
    }
}

/// `MV DEST` behind ops moves the file once the ops are carried out. The destination may stand in
/// quotes, which are not part of it.
pub proof fn law_mv_follows_ops(ops: Seq<OpText>, dest: Seq<char>, path: Seq<char>)
    requires
        forall|i: int| 0 <= i < ops.len() ==> is_proper(#[trigger] ops[i]),
        dest.len() > 0,
        all_of(dest, CharClass::InLine),
        !is_white(dest[0]),
        !is_white(dest.last()),
        path == dest && dest[0] != '"' && dest[0] != '\'' || (dest == seq!['"'] + path + seq!['"']
            || dest == seq!['\''] + path + seq!['\'']),
    ensures
        parsed(join_lines(patch_lines(ops).push("MV "@ + dest)), false) matches Ok(body)
            && body.edits == all_meant(ops) && body.file_op == Some(
            FileOpView::Move { dest: path },
        ),
{
    reveal_strlit("MV ");
    lemma_mv_line(dest, path);
    lemma_then(ops, "MV "@ + dest);
}

/// `REM` deletes the whole file: behind ops it is refused, alone it is read as such.
pub proof fn law_rem_stands_alone(ops: Seq<OpText>)
    requires
        forall|i: int| 0 <= i < ops.len() ==> is_proper(#[trigger] ops[i]),
    ensures
        match parsed(join_lines(patch_lines(ops).push("REM"@)), false) {
            Ok(body) => all_meant(ops).len() == 0 && body.edits.len() == 0 && body.file_op == Some(
                FileOpView::Rem,
            ),
            Err(message) => all_meant(ops).len() > 0 && message == "line "@ + decimal(
                patch_lines(ops).len() + 1,
            ) + ": "@ + "`REM` deletes the whole file and cannot be combined with line ops"@,
        },
{
    reveal_strlit("REM");
    reveal_strlit("PUT ");
    reveal_strlit("CUT ");
    let line = "REM"@;
    lemma_plain_line(line);
    lemma_leading_is(line, CharClass::White, 0);
    assert(line.skip(0) =~= line);
    lemma_trailing_is(line, CharClass::White, 0);
    assert(line.take(line.len() as int) =~= line);
    lemma_then(ops, line);
}

/// A header with both a register and a colon is refused.
pub proof fn law_register_takes_no_colon(ops: Seq<OpText>, op: OpView)
    requires
        forall|i: int| 0 <= i < ops.len() ==> is_proper(#[trigger] ops[i]),
        can_write(op),
        op.had_colon,
        op.register is Some,
    ensures
        parsed(join_lines(patch_lines(ops).push(written(op))), false) == Err::<
            BodyView,
            Seq<char>,
        >(
            "line "@ + decimal(patch_lines(ops).len() + 1) + ": "@
                + "register `PUT` takes no `:` body"@,
        ),
{
    lemma_written_is_row(op);
    lemma_then(ops, written(op));
    law_header_is_read(ops_body(ops), op, patch_lines(ops).len() + 1);
}

/// A range whose ends are not in order, or that is too long, is refused.
pub proof fn law_bad_ranges_are_refused(ops: Seq<OpText>, op: OpView)
    requires
        forall|i: int| 0 <= i < ops.len() ==> is_proper(#[trigger] ops[i]),
        can_write(op),
        !(op.had_colon && op.register is Some),
        op.target matches Target::Replace { range } && (range.end.line < range.start.line
            || range.end.line - range.start.line >= MAX_RANGE_LINES) || (
        op.target matches Target::Cut { range } && (range.end.line < range.start.line
            || range.end.line - range.start.line >= MAX_RANGE_LINES)),
    ensures
        parsed(join_lines(patch_lines(ops).push(written(op))), false) is Err,
{
    lemma_written_is_row(op);
    lemma_then(ops, written(op));
    law_header_is_read(ops_body(ops), op, patch_lines(ops).len() + 1);
    let body = lines_fed(input_lines(join_lines(patch_lines(ops).push(written(op)))))->Ok_0;
    lemma_no_rows();
}

proof fn lemma_no_rows()
    ensures
        minus_resolved(seq![]) == Ok::<Seq<RowView>, Seq<char>>(seq![]),
        row_texts(prefixes_stripped(seq![])) == Seq::<
            Seq<char>,
        >::empty(),
{
    law_marked_rows_are_kept(seq![]);
    assert(row_texts(seq![]) =~= Seq::<Seq<char>>::empty());
}

/// `PUT` with a colon and no rows under it deletes the lines of its range, with a warning, and is
/// refused where it names a gap. While more of the input may follow it is left out.
pub proof fn law_put_without_rows(ops: Seq<OpText>, op: OpView)
    requires
        forall|i: int| 0 <= i < ops.len() ==> is_proper(#[trigger] ops[i]),
        can_write(op),
        op.had_colon,
        op.register is None,
        !(op.target is Cut || op.target is CutBlock),
        op.target matches Target::Replace { range } ==> range.start.line <= range.end.line
            && range.end.line - range.start.line < MAX_RANGE_LINES,
    ensures
        ({
            let text = join_lines(patch_lines(ops).push(written(op)));
            let line_num = patch_lines(ops).len() + 1;
            let warning = "empty `PUT` body as deletion; use `CUT` to delete lines"@;
            &&& parsed(text, true) matches Ok(body) && body.edits == all_meant(ops)
            &&& match op.target {
                Target::Replace { range } => parsed(text, false) matches Ok(body) && body.edits
                    == all_meant(ops) + deletes(
                    range.start.line,
                    range.end.line,
                    line_num,
                    all_meant(ops).len(),
                ) && body.warnings.contains(warning),
                Target::Block { anchor } => parsed(text, false) matches Ok(body) && body.edits
                    == all_meant(ops).push(
                    EditView::Block {
                        anchor,
                        payloads: seq![],
                        mode: BlockMode::Replace,
                        register: None,
                        line_num,
                        index: all_meant(ops).len(),
                    },
                ) && body.warnings.contains(warning),
                _ => parsed(text, false) == Err::<BodyView, Seq<char>>(
                    "line "@ + decimal(line_num) + ": "@ + "`PUT` insert promises body rows"@,
                ),
            }
        }),
{
    lemma_written_is_row(op);
    lemma_then(ops, written(op));
    law_header_is_read(ops_body(ops), op, patch_lines(ops).len() + 1);
    lemma_no_rows();
    let warning = "empty `PUT` body as deletion; use `CUT` to delete lines"@;
    let body = lines_fed(input_lines(join_lines(patch_lines(ops).push(written(op)))))->Ok_0;
    assert(body.warnings.push(warning)[body.warnings.len() as int] == warning);
    if let Target::Block { anchor } = op.target {
        let n = all_meant(ops).len();
        let edit = EditView::Block {
            anchor,
            payloads: seq![],
            mode: BlockMode::Replace,
            register: None,
            line_num: patch_lines(ops).len() + 1,
            index: n,
        };
        assert(all_meant(ops) + seq![edit] =~= all_meant(ops).push(edit));
    }
}

/// A range or a block without colon and register is refused.
pub proof fn law_bare_span_is_refused(ops: Seq<OpText>, op: OpView)
    requires
        forall|i: int| 0 <= i < ops.len() ==> is_proper(#[trigger] ops[i]),
        can_write(op),
        !op.had_colon,
        op.register is None,
        op.target is Replace || op.target is Block,
    ensures
        parsed(join_lines(patch_lines(ops).push(written(op))), false) is Err,
{
    lemma_written_is_row(op);
    lemma_then(ops, written(op));
    law_header_is_read(ops_body(ops), op, patch_lines(ops).len() + 1);
    lemma_no_rows();
}

/// A row behind an op that takes none is refused: behind a cut, a register, or a header without a
/// colon. So is a row before any op.
pub proof fn law_stray_row_is_refused(ops: Seq<OpText>, row: Seq<char>)
    requires
        forall|i: int| 0 <= i < ops.len() ==> is_proper(#[trigger] ops[i]),
        ops.len() > 0 ==> !ops.last().op.had_colon,
        is_row(row),
    ensures
        parsed(join_lines(patch_lines(ops).push(seq!['+'] + row)), false) is Err,
{
    let line = seq!['+'] + row;
    assert(line[0] == '+');
    assert forall|j: int| 0 <= j < line.len() implies class_has(
        CharClass::InLine,
        #[trigger] line[j],
    ) by {
        if j > 0 {
            assert(line[j] == row[j - 1]);
        }
    }
    if row.len() > 0 {
        assert(line.last() == row.last());
    }
    lemma_plain_line(line);
    lemma_then(ops, line);
    if ops.len() > 0 {
        lemma_last_pending(ops);
    }
}

proof fn lemma_last_pending(ops: Seq<OpText>)
    requires
        ops.len() > 0,
        forall|i: int| 0 <= i < ops.len() ==> is_proper(#[trigger] ops[i]),
    ensures
        ops_body(ops).pending matches Some(p) && p.op == ops.last().op,
{
    let front = ops.drop_last();
    let t = ops.last();
    assert(t == ops[ops.len() - 1]);
    assert forall|i: int| 0 <= i < front.len() implies is_proper(#[trigger] front[i]) by {
        assert(front[i] == ops[i]);
    }
    lemma_ops_fed(front);
    let before = patch_lines(front);
    let done = flushed(lines_fed(before)->Ok_0)->Ok_0;
    lemma_rows_collected(before, t, t.rows.len() as int, done);
    assert(op_lines(t).take(t.rows.len() as int + 1) =~= op_lines(t));
}

// ---------------------------------------------------------------------------------------------
// File ops among ops

/// A file op stands beside the ops before it, which are done first. There is one in a section, and
/// a deletion stands for itself: beside ops it is refused, whether they come before it or behind
/// it.
pub proof fn law_one_file_op_in_a_section(
    body: BodyView,
    done: BodyView,
    op: FileOpView,
    line_num: nat,
)
    requires
        flushed(body) == Ok::<BodyView, Seq<char>>(done),
    ensures
        ({
            let fed = file_op_fed(body, op, line_num);
            let line = "line "@ + decimal(line_num) + ": "@;
            if done.file_op is Some {
                fed == Err::<BodyView, Seq<char>>(
                    line + "only one file-level op (`REM` or `MV`) per section"@,
                )
            } else if op == FileOpView::Rem && done.edits.len() > 0 {
                fed == Err::<BodyView, Seq<char>>(
                    line + "`REM` deletes the whole file and cannot be combined with line ops"@,
                )
            } else {
                fed matches Ok(after) && after.file_op == Some(op) && after.edits == done.edits
                    && after.warnings == done.warnings && after.pending == done.pending
            }
        }),
        done.file_op == Some(FileOpView::Rem) && done.edits.len() > 0 ==> body_finished(body, false)
            == Err::<BodyView, Seq<char>>(
            "`REM` deletes the whole file and cannot be combined with line ops"@,
        ),
        !(done.file_op == Some(FileOpView::Rem) && done.edits.len() > 0) ==> body_finished(
            body,
            false,
        ) == Ok::<BodyView, Seq<char>>(done),
{
}

/// An op behind a move leaves the move as it is, and comes to the same edits.
pub proof fn law_op_behind_a_move(body: BodyView, t: OpText, line_num: nat)
    requires
        is_proper(t),
        body.pending is None,
    ensures
        op_done(body, t.op, t.rows, line_num) matches Ok(done) && done.edits == body.edits + meant(
            t,
            line_num,
            body.edits.len(),
        ) && done.file_op == body.file_op && done.pending is None,
{
    lemma_meant(BodyView { file_op: None, ..body }, t, line_num);
    match t.op.target {
        Target::Replace { range } => {
            assert(range_error(range, line_num) is None);
        },
        Target::Cut { range } => {
            assert(range_error(range, line_num) is None);
        },
        _ => {},
    }
}

// ---------------------------------------------------------------------------------------------
// Lines of the input

/// Carriage ends at the ends of lines are no part of them, and a final line feed begins no line.
pub proof fn law_input_lines(lines: Seq<Seq<char>>, ends: Seq<Seq<char>>)
    requires
        lines.len() > 0,
        lines.len() == ends.len(),
        forall|i: int| 0 <= i < lines.len() ==> is_row(#[trigger] lines[i]),
        forall|i: int|
            0 <= i < ends.len() ==> all_of(#[trigger] ends[i], CharClass::Return),
    ensures
        input_lines(join_lines(Seq::new(lines.len(), |i: int| lines[i] + ends[i])))
            == if lines.last().len() == 0 {
            lines.drop_last()
        } else {
            lines
        },
{
    let ended = Seq::new(lines.len(), |i: int| lines[i] + ends[i]);
    assert forall|i: int| 0 <= i < ended.len() implies all_of(
        #[trigger] ended[i],
        CharClass::InLine,
    ) by {
        assert(is_row(lines[i]));
        assert forall|j: int| 0 <= j < ended[i].len() implies class_has(
            CharClass::InLine,
            #[trigger] ended[i][j],
        ) by {
            if j < lines[i].len() {
                assert(class_has(CharClass::InLine, lines[i][j]));
            } else {
                assert(class_has(CharClass::Return, ends[i][j - lines[i].len()]));
            }
        }
    }
    law_lines_of_join(ended);
    let kept = Seq::new(ended.len(), |i: int| trimmed_end(ended[i], CharClass::Return));
    assert forall|i: int| 0 <= i < lines.len() implies #[trigger] kept[i] == lines[i] by {
        assert(is_row(lines[i]));
        let n = ends[i].len();
        assert forall|j: int| ended[i].len() - n <= j < ended[i].len() implies class_has(
            CharClass::Return,
            #[trigger] ended[i][j],
        ) by {
            assert(class_has(CharClass::Return, ends[i][j - lines[i].len()]));
        }
        if lines[i].len() > 0 {
            assert(ended[i][ended[i].len() - n - 1] == lines[i].last());
        }
        lemma_trailing_is(ended[i], CharClass::Return, n);
        assert(ended[i].take(ended[i].len() - n) =~= lines[i]);
    }
    assert(kept =~= lines);
}

/// Line breaks before a patch are passed over. Lines before the first header make up a section
/// without path and tag, and a header without tag and without lines behind it makes up none.
pub proof fn law_lines_before_a_patch(breaks: Seq<char>, text: Seq<char>, lines: Seq<Seq<char>>)
    requires
        all_of(breaks, CharClass::LineBreak),
        text.len() > 0 ==> text[0] != '\n' && text[0] != '\r',
        lines.len() > 0,
        forall|i: int| 0 <= i < lines.len() ==> is_body_line(#[trigger] lines[i]),
        join_lines(lines).len() > 0,
    ensures
        patch_sections(breaks + text) == patch_sections(text),
        section_ended(input_run(lines)).sections == seq![
            SectionView { path: seq![], file_hash: None, body: join_lines(lines) },
        ],
{
    let all = breaks + text;
    assert forall|i: int| 0 <= i < breaks.len() implies class_has(
        CharClass::LineBreak,
        #[trigger] all[i],
    ) by {
        assert(all[i] == breaks[i]);
    }
    if text.len() > 0 {
        assert(all[breaks.len() as int] == text[0]);
    }
    lemma_leading_is(all, CharClass::LineBreak, breaks.len());
    assert(all.skip(breaks.len() as int) =~= text);
    lemma_leading_is(text, CharClass::LineBreak, 0);
    assert(text.skip(0) =~= text);
    let first = seq![lines[0]];
    let rest = lines.skip(1);
    assert(is_body_line(lines[0]));
    assert(Seq::<Seq<char>>::empty().push(lines[0]) =~= first);
    lemma_run_push(Seq::<Seq<char>>::empty(), lines[0]);
    assert forall|i: int| 0 <= i < rest.len() implies is_body_line(#[trigger] rest[i]) by {
        assert(rest[i] == lines[i + 1]);
    }
    lemma_body_run(first, rest);
    assert(first + rest =~= lines);
    assert(input_run(first).body =~= first);
    assert(section_ended(input_run(lines)).sections =~= seq![
        SectionView { path: seq![], file_hash: None, body: join_lines(lines) },
    ]);
}

/// A warning is given once: a second time it changes nothing, and others are kept.
pub proof fn law_warnings_are_given_once(body: BodyView, message: Seq<char>)
    ensures
        body.warn(message).warnings.contains(message),
        body.warn(message).warn(message) == body.warn(message),
        body.warnings.contains(message) ==> body.warn(message) == body,
        !body.warnings.contains(message) ==> body.warn(message).warnings == body.warnings.push(
            message,
        ),
        body.warn(message).edits == body.edits,
        body.warn(message).pending == body.pending,
        body.warn(message).file_op == body.file_op,
{
    let w = body.warnings.push(message);
    assert(w[body.warnings.len() as int] == message);
}

/// A range is accepted where its ends are lines, in order, and it has no more than a hundred
/// thousand lines.
pub proof fn law_ranges_that_are_accepted(range: ParsedRange, line_num: nat)
    ensures
        range_error(range, line_num) is None <==> 1 <= range.start.line <= range.end.line
            && range.end.line - range.start.line < 100_000,
{
}

} // verus!
