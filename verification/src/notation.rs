//! Patches as they are written, and that they are read as they are meant.

use crate::apply::replacing;
use crate::grounds::lemma_digits_back;
use crate::language::{
    is_row, lemma_decimal_first, lemma_decimal_is_row, lemma_input_lines_of, lemma_plain_line,
};
use crate::parse::{
    bodyless, flushed, line_fed, lines_fed, op_done, op_fed, parsed, BodyView, PendingView,
};
use crate::rows::{law_marked_rows_are_kept, row_texts, RowView};
use crate::scan::{
    gap_op, locator_end, number_at, op_ending, put_op, range_at, range_error, range_of, register_at,
    skip_blanks, span_op, LocatorEnd, OpView, RangeScan, Target,
};
use crate::text::{
    class_has, decimal, is_digit, join_lines, law_decimal_round_trip, leading, lemma_leading,
    lemma_leading_is, CharClass,
};
use crate::types::{
    deletes, inserts, Anchor, BlockMode, Cursor, EditView, PasteTarget, MAX_RANGE_LINES,
};
use vstd::prelude::*;

verus! {

// ---------------------------------------------------------------------------------------------
// Headers

/// A name of a register: one to sixty-four letters, digits, underscores and hyphens.
pub open spec fn is_name(name: Seq<char>) -> bool {
    1 <= name.len() <= 64 && forall|i: int|
        0 <= i < name.len() ==> {
            let c = #[trigger] name[i];
            'a' <= c <= 'z' || 'A' <= c <= 'Z' || '0' <= c <= '9' || c == '_' || c == '-'
        }
}

/// What a header ends in: a register, a colon, both or nothing.
pub open spec fn ending(register: Option<Seq<char>>, had_colon: bool) -> Seq<char> {
    (match register {
        Some(name) => seq![' ', '@'] + name,
        None => seq![],
    }) + (if had_colon {
        seq![':']
    } else {
        seq![]
    })
}

/// What a header names: `A.=B`, `N*`, `<N`, `>N`, `>N*`, `<1` or `>$`.
pub open spec fn locator(target: Target) -> Seq<char> {
    match target {
        Target::Replace { range } => decimal(range.start.line as nat) + seq!['.', '='] + decimal(
            range.end.line as nat,
        ),
        Target::Cut { range } => decimal(range.start.line as nat) + seq!['.', '='] + decimal(
            range.end.line as nat,
        ),
        Target::Block { anchor } => decimal(anchor.line as nat) + seq!['*'],
        Target::CutBlock { anchor } => decimal(anchor.line as nat) + seq!['*'],
        Target::InsertBefore { anchor } => seq!['<'] + decimal(anchor.line as nat),
        Target::InsertAfter { anchor } => seq!['>'] + decimal(anchor.line as nat),
        Target::InsertAfterBlock { anchor } => seq!['>'] + decimal(anchor.line as nat) + seq!['*'],
        Target::Bof => seq!['<', '1'],
        Target::Eof => seq!['>', '$'],
    }
}

/// The header of an op.
pub open spec fn written(op: OpView) -> Seq<char> {
    (if op.target is Cut || op.target is CutBlock {
        "CUT "@
    } else {
        "PUT "@
    }) + locator(op.target) + ending(op.register, op.had_colon)
}

/// Lines are counted from one, what goes before the first line is written as the head, and a
/// register has a name.
pub open spec fn can_write(op: OpView) -> bool {
    &&& match op.target {
        Target::Replace { range } => range.start.line > 0 && range.end.line > 0,
        Target::Cut { range } => range.start.line > 0 && range.end.line > 0,
        Target::Block { anchor } => anchor.line > 0,
        Target::CutBlock { anchor } => anchor.line > 0,
        Target::InsertBefore { anchor } => anchor.line > 1,
        Target::InsertAfter { anchor } => anchor.line > 0,
        Target::InsertAfterBlock { anchor } => anchor.line > 0,
        _ => true,
    }
    &&& op.register matches Some(name) ==> is_name(name)
}

proof fn lemma_front_kept(s: Seq<char>)
    requires
        s.len() > 0 ==> s[0] != ' ' && s[0] != '\t',
    ensures
        skip_blanks(s) == s,
{
    lemma_leading_is(s, CharClass::Blank, 0);
    assert(s.skip(0) =~= s);
}

proof fn lemma_ending(register: Option<Seq<char>>, had_colon: bool)
    requires
        register matches Some(name) ==> is_name(name),
    ensures
        ({
            let e = ending(register, had_colon);
            let end = LocatorEnd { register, had_colon, rest: seq![] };
            &&& locator_end(e) == end
            &&& locator_end(skip_blanks(e)) == end
            &&& e.len() > 0 ==> !is_digit(e[0]) && e[0] != '*'
            &&& skip_blanks(e).len() > 0 ==> skip_blanks(e)[0] != '*'
            &&& register is None ==> skip_blanks(e) == e
        }),
{
    let e = ending(register, had_colon);
    let colon: Seq<char> = if had_colon {
        seq![':']
    } else {
        seq![]
    };
    lemma_front_kept(colon);
    lemma_front_kept(Seq::<char>::empty());
    if had_colon {
        assert(colon.skip(1) =~= seq![]);
    }
    match register {
        None => {
            assert(e =~= colon);
            assert(register_at(e) is None);
        },
        Some(name) => {
            let t = seq!['@'] + name + colon;
            assert(e[0] == ' ');
            assert(e[1] == '@');
            lemma_leading_is(e, CharClass::Blank, 1);
            assert(e.skip(1) =~= t);
            lemma_front_kept(t);
            assert(skip_blanks(e) == t);
            let after = t.skip(1);
            assert(after =~= name + colon);
            assert forall|i: int| 0 <= i < name.len() implies class_has(
                CharClass::Name,
                #[trigger] after[i],
            ) by {
                assert(after[i] == name[i]);
            }
            if had_colon {
                assert(after[name.len() as int] == ':');
            }
            lemma_leading_is(after, CharClass::Name, name.len());
            assert(after.take(name.len() as int) =~= name);
            assert(after.skip(name.len() as int) =~= colon);
        },
    }
}

/// A number in decimal that no digit follows is read as that number.
proof fn lemma_number(n: usize, rest: Seq<char>)
    requires
        n > 0,
        rest.len() > 0 ==> !is_digit(rest[0]),
    ensures
        ({
            let d = decimal(n as nat);
            let s = d + rest;
            &&& number_at(s) == Some((n, d.len()))
            &&& s.skip(d.len() as int) == rest
            &&& s.len() > 0 && is_digit(s[0])
            &&& skip_blanks(s) == s
        }),
{
    let d = decimal(n as nat);
    let s = d + rest;
    lemma_decimal_first(n as nat);
    law_decimal_round_trip(n as nat);
    assert forall|i: int| 0 <= i < d.len() implies class_has(CharClass::Digit, #[trigger] s[i]) by {
        assert(s[i] == d[i]);
    }
    if rest.len() > 0 {
        assert(s[d.len() as int] == rest[0]);
    }
    lemma_leading_is(s, CharClass::Digit, d.len());
    assert(s.take(d.len() as int) =~= d);
    assert(s.skip(d.len() as int) =~= rest);
    assert(s[0] == d[0]);
    assert(class_has(CharClass::Digit, s[0]));
    lemma_front_kept(s);
}

/// Two numbers are read as a range, whichever separators stand between them: hyphens, dots, equals
/// signs, ellipses and blanks.
pub proof fn law_range_is_read(a: usize, b: usize, sep: Seq<char>, rest: Seq<char>)
    requires
        a > 0,
        b > 0,
        sep.len() > 0,
        forall|i: int|
            0 <= i < sep.len() ==> {
                let c = #[trigger] sep[i];
                c == '-' || c == '.' || c == '=' || c == '\u{2026}' || c == ' ' || c == '\t'
            },
        rest.len() > 0 ==> !('0' <= rest[0] <= '9'),
    ensures
        range_at(decimal(a as nat) + sep + decimal(b as nat) + rest) == Some(
            RangeScan { range: range_of(a, b), had_sep: true, rest: skip_blanks(rest) },
        ),
{
    let da = decimal(a as nat);
    let db = decimal(b as nat);
    let tail = db + rest;
    let after = sep + tail;
    let s = da + sep + db + rest;
    assert(s =~= da + after);
    assert(after[0] == sep[0]);
    lemma_number(a, after);
    lemma_number(b, rest);
    assert forall|i: int| 0 <= i < sep.len() implies class_has(
        CharClass::Separator,
        #[trigger] after[i],
    ) by {
        assert(after[i] == sep[i]);
    }
    assert(after[sep.len() as int] == tail[0]);
    lemma_leading_is(after, CharClass::Separator, sep.len());
    assert(after.skip(sep.len() as int) =~= tail);
}

/// A single number is read as the range of that line, also with blanks or other separators behind
/// it where a colon, a register or nothing follows.
pub proof fn law_single_line_is_read(n: usize, sep: Seq<char>, rest: Seq<char>)
    requires
        n > 0,
        forall|i: int|
            0 <= i < sep.len() ==> {
                let c = #[trigger] sep[i];
                c == '-' || c == '.' || c == '=' || c == '\u{2026}' || c == ' ' || c == '\t'
            },
        rest.len() == 0 || rest[0] == ':' || rest[0] == '@' || (sep.len() == 0 && rest[0] == '*'),
    ensures
        range_at(decimal(n as nat) + sep + rest) == Some(
            RangeScan { range: range_of(n, n), had_sep: sep.len() > 0, rest },
        ),
{
    let after = sep + rest;
    assert(decimal(n as nat) + sep + rest =~= decimal(n as nat) + after);
    if sep.len() > 0 {
        assert(after[0] == sep[0]);
    } else {
        assert(after =~= rest);
    }
    lemma_number(n, after);
    assert forall|i: int| 0 <= i < sep.len() implies class_has(
        CharClass::Separator,
        #[trigger] after[i],
    ) by {
        assert(after[i] == sep[i]);
    }
    if rest.len() > 0 {
        assert(after[sep.len() as int] == rest[0]);
    }
    lemma_leading_is(after, CharClass::Separator, sep.len());
    assert(after.skip(sep.len() as int) =~= rest);
    lemma_front_kept(rest);
    assert(number_at(rest) is None) by {
        lemma_leading(rest, CharClass::Digit);
        lemma_leading_is(rest, CharClass::Digit, 0);
    }
}

proof fn lemma_span_read(op: OpView)
    requires
        can_write(op),
        op.target is Replace || op.target is Cut,
    ensures
        span_op(
            locator(op.target) + ending(op.register, op.had_colon),
            op.target is Cut,
            if op.target is Cut {
                "CUT"@
            } else {
                "PUT"@
            },
        ) == Ok::<OpView, Seq<char>>(op),
{
    let range = match op.target {
        Target::Replace { range } => range,
        Target::Cut { range } => range,
        _ => range_of(1, 1),
    };
    let e = ending(op.register, op.had_colon);
    lemma_ending(op.register, op.had_colon);
    law_range_is_read(range.start.line, range.end.line, seq!['.', '='], e);
    assert(range_of(range.start.line, range.end.line) == range);
}

proof fn lemma_block_read(op: OpView)
    requires
        can_write(op),
        op.target is Block || op.target is CutBlock,
    ensures
        span_op(
            locator(op.target) + ending(op.register, op.had_colon),
            op.target is CutBlock,
            if op.target is CutBlock {
                "CUT"@
            } else {
                "PUT"@
            },
        ) == Ok::<OpView, Seq<char>>(op),
{
    let anchor = match op.target {
        Target::Block { anchor } => anchor,
        Target::CutBlock { anchor } => anchor,
        _ => Anchor { line: 1 },
    };
    let e = ending(op.register, op.had_colon);
    let rest = seq!['*'] + e;
    lemma_ending(op.register, op.had_colon);
    let none = Seq::<char>::empty();
    law_single_line_is_read(anchor.line, none, rest);
    assert(decimal(anchor.line as nat) + none + rest =~= locator(op.target) + e);
    assert(rest.skip(1) =~= e);
    assert(range_of(anchor.line, anchor.line).start == anchor);
}

proof fn lemma_gap_number_read(op: OpView, after: bool, n: usize, block: bool)
    requires
        n > 0,
        op.register matches Some(name) ==> is_name(name),
        op.target == if after {
            if block {
                Target::InsertAfterBlock { anchor: Anchor { line: n } }
            } else {
                Target::InsertAfter { anchor: Anchor { line: n } }
            }
        } else if n == 1 {
            Target::Bof
        } else {
            Target::InsertBefore { anchor: Anchor { line: n } }
        },
        block ==> after,
    ensures
        ({
            let sigil = if after {
                '>'
            } else {
                '<'
            };
            let star: Seq<char> = if block {
                seq!['*']
            } else {
                seq![]
            };
            gap_op(
                seq![sigil] + (decimal(n as nat) + (star + ending(op.register, op.had_colon))),
            ) == Ok::<OpView, Seq<char>>(op)
        }),
{
    let e = ending(op.register, op.had_colon);
    let sigil = if after {
        '>'
    } else {
        '<'
    };
    let star: Seq<char> = if block {
        seq!['*']
    } else {
        seq![]
    };
    let rest = star + e;
    let t = decimal(n as nat) + rest;
    let s = seq![sigil] + t;
    lemma_ending(op.register, op.had_colon);
    if block {
        assert(rest[0] == '*');
        assert(rest.skip(1) =~= e);
    } else {
        assert(rest =~= e);
    }
    lemma_number(n, rest);
    assert(s.skip(1) =~= t);
    assert(s[0] == sigil);
}

proof fn lemma_gap_tail_read(op: OpView)
    requires
        op.register matches Some(name) ==> is_name(name),
        op.target is Eof,
    ensures
        gap_op(locator(op.target) + ending(op.register, op.had_colon)) == Ok::<OpView, Seq<char>>(
            op,
        ),
{
    let e = ending(op.register, op.had_colon);
    let s = locator(op.target) + e;
    lemma_ending(op.register, op.had_colon);
    let t = s.skip(1);
    assert(t =~= seq!['$'] + e);
    lemma_front_kept(t);
    assert(t.skip(1) =~= e);
}

proof fn lemma_gap_read(op: OpView)
    requires
        can_write(op),
        op.target is InsertBefore || op.target is InsertAfter || op.target is InsertAfterBlock
            || op.target is Bof || op.target is Eof,
    ensures
        gap_op(locator(op.target) + ending(op.register, op.had_colon)) == Ok::<OpView, Seq<char>>(
            op,
        ),
{
    let e = ending(op.register, op.had_colon);
    let s = locator(op.target) + e;
    let none = Seq::<char>::empty();
    match op.target {
        Target::InsertBefore { anchor } => {
            assert(s =~= seq!['<'] + (decimal(anchor.line as nat) + (none + e)));
            lemma_gap_number_read(op, false, anchor.line, false);
        },
        Target::InsertAfter { anchor } => {
            assert(s =~= seq!['>'] + (decimal(anchor.line as nat) + (none + e)));
            lemma_gap_number_read(op, true, anchor.line, false);
        },
        Target::InsertAfterBlock { anchor } => {
            assert(s =~= seq!['>'] + (decimal(anchor.line as nat) + (seq!['*'] + e)));
            lemma_gap_number_read(op, true, anchor.line, true);
        },
        Target::Bof => {
            assert(decimal(1) =~= seq!['1']);
            assert(s =~= seq!['<'] + (decimal(1) + (none + e)));
            lemma_gap_number_read(op, false, 1, false);
        },
        _ => lemma_gap_tail_read(op),
    }
}

#[verifier::rlimit(40)]
proof fn lemma_locator_first(op: OpView)
    requires
        can_write(op),
    ensures
        ({
            let s = locator(op.target) + ending(op.register, op.had_colon);
            &&& s.len() > 0
            &&& skip_blanks(s) == s
            &&& op.target is InsertBefore || op.target is InsertAfter
                || op.target is InsertAfterBlock || op.target is Bof || op.target is Eof
                <==> s[0] == '<' || s[0] == '>'
        }),
{
    let e = ending(op.register, op.had_colon);
    let s = locator(op.target) + e;
    match op.target {
        Target::Replace { range } => {
            let rest = seq!['.', '='] + decimal(range.end.line as nat) + e;
            lemma_number(range.start.line, rest);
            assert(s =~= decimal(range.start.line as nat) + rest);
        },
        Target::Cut { range } => {
            let rest = seq!['.', '='] + decimal(range.end.line as nat) + e;
            lemma_number(range.start.line, rest);
            assert(s =~= decimal(range.start.line as nat) + rest);
        },
        Target::Block { anchor } => {
            let rest = seq!['*'] + e;
            lemma_number(anchor.line, rest);
            assert(s =~= decimal(anchor.line as nat) + rest);
        },
        Target::CutBlock { anchor } => {
            let rest = seq!['*'] + e;
            lemma_number(anchor.line, rest);
            assert(s =~= decimal(anchor.line as nat) + rest);
        },
        _ => {
            lemma_front_kept(s);
        },
    }
}

/// The header of an op is read as that op, wherever it stands in a patch.
pub proof fn law_header_is_read(body: BodyView, op: OpView, line_num: nat)
    requires
        can_write(op),
    ensures
        line_fed(body, written(op), line_num) == op_fed(body, op, line_num),
{
    reveal_strlit("PUT ");
    reveal_strlit("CUT ");
    let line = written(op);
    let s = locator(op.target) + ending(op.register, op.had_colon);
    let verb = if op.target is Cut || op.target is CutBlock {
        "CUT "@
    } else {
        "PUT "@
    };
    assert(line =~= verb + s);
    assert(line[0] == verb[0]);
    lemma_plain_line(line);
    assert(line.skip(4) =~= s);
    assert(line.subrange(0, 4) =~= verb);
    lemma_locator_first(op);
    match op.target {
        Target::Replace { .. } => lemma_span_read(op),
        Target::Cut { .. } => {
            lemma_span_read(op);
            assert(line[0] == 'C');
            assert("PUT "@[0] == 'P');
            assert(!"PUT "@.is_prefix_of(line)) by {
                if "PUT "@.is_prefix_of(line) {
                    assert(line.subrange(0, 4)[0] == line[0]);
                }
            }
        },
        Target::Block { .. } => lemma_block_read(op),
        Target::CutBlock { .. } => {
            lemma_block_read(op);
            assert(line[0] == 'C');
            assert("PUT "@[0] == 'P');
            assert(!"PUT "@.is_prefix_of(line)) by {
                if "PUT "@.is_prefix_of(line) {
                    assert(line.subrange(0, 4)[0] == line[0]);
                }
            }
        },
        _ => lemma_gap_read(op),
    }
}

spec fn is_plain_text(s: Seq<char>) -> bool {
    forall|i: int| 0 <= i < s.len() ==> #[trigger] s[i] != '\n' && s[i] != '\r'
}

proof fn lemma_plain_concat(a: Seq<char>, b: Seq<char>)
    requires
        is_plain_text(a),
        is_plain_text(b),
    ensures
        is_plain_text(a + b),
{
}

proof fn lemma_plain_decimal(n: nat)
    ensures
        is_plain_text(decimal(n)),
{
    lemma_decimal_is_row(n);
    assert forall|i: int| 0 <= i < decimal(n).len() implies #[trigger] decimal(n)[i] != '\n'
        && decimal(n)[i] != '\r' by {
        assert(class_has(CharClass::Digit, decimal(n)[i]));
    }
}

proof fn lemma_plain_locator(target: Target)
    ensures
        is_plain_text(locator(target)),
{
    match target {
        Target::Replace { range } => {
            lemma_plain_decimal(range.start.line as nat);
            lemma_plain_decimal(range.end.line as nat);
        },
        Target::Cut { range } => {
            lemma_plain_decimal(range.start.line as nat);
            lemma_plain_decimal(range.end.line as nat);
        },
        Target::Block { anchor } => lemma_plain_decimal(anchor.line as nat),
        Target::CutBlock { anchor } => lemma_plain_decimal(anchor.line as nat),
        Target::InsertBefore { anchor } => lemma_plain_decimal(anchor.line as nat),
        Target::InsertAfter { anchor } => lemma_plain_decimal(anchor.line as nat),
        Target::InsertAfterBlock { anchor } => lemma_plain_decimal(anchor.line as nat),
        _ => {},
    }
}

pub proof fn lemma_written_is_row(op: OpView)
    requires
        can_write(op),
    ensures
        is_row(written(op)),
        written(op).len() > 0,
{
    reveal_strlit("PUT ");
    reveal_strlit("CUT ");
    let verb = if op.target is Cut || op.target is CutBlock {
        "CUT "@
    } else {
        "PUT "@
    };
    let e = ending(op.register, op.had_colon);
    lemma_plain_locator(op.target);
    assert(is_plain_text(e)) by {
        if let Some(name) = op.register {
            assert(is_plain_text(name));
            lemma_plain_concat(seq![' ', '@'], name);
        }
    }
    lemma_plain_concat(verb, locator(op.target));
    lemma_plain_concat(verb + locator(op.target), e);
    let line = written(op);
    assert forall|i: int| 0 <= i < line.len() implies class_has(
        CharClass::InLine,
        #[trigger] line[i],
    ) by {}
    assert(line.last() != '\r');
}

// ---------------------------------------------------------------------------------------------
// Ops and their rows

/// An op with the rows under it.
pub struct OpText {
    pub op: OpView,
    pub rows: Seq<Seq<char>>,
}

/// An op as it is meant to be written: rows under a colon, a register without one, neither under a
/// cut or a paste from the anonymous register. A range has its ends in order and is not too long.
pub open spec fn is_proper(t: OpText) -> bool {
    &&& can_write(t.op)
    &&& match t.op.target {
        Target::Replace { range } => range.start.line <= range.end.line && range.end.line
            - range.start.line < MAX_RANGE_LINES,
        Target::Cut { range } => range.start.line <= range.end.line && range.end.line
            - range.start.line < MAX_RANGE_LINES,
        _ => true,
    }
    &&& forall|i: int| 0 <= i < t.rows.len() ==> is_row(#[trigger] t.rows[i])
    &&& t.op.had_colon <==> t.rows.len() > 0
    &&& t.op.target is Cut || t.op.target is CutBlock ==> !t.op.had_colon
    &&& t.op.had_colon ==> t.op.register is None
    &&& t.op.target is Replace || t.op.target is Block ==> t.op.had_colon || t.op.register is Some
}

/// The lines of an op: its header, and its rows, each behind a plus sign.
pub open spec fn op_lines(t: OpText) -> Seq<Seq<char>> {
    seq![written(t.op)] + Seq::new(t.rows.len(), |i: int| seq!['+'] + t.rows[i])
}

pub open spec fn patch_lines(ops: Seq<OpText>) -> Seq<Seq<char>>
    decreases ops.len(),
{
    if ops.len() == 0 {
        seq![]
    } else {
        patch_lines(ops.drop_last()) + op_lines(ops.last())
    }
}

/// The edits that an op stands for, of which the first has the number `n`.
pub open spec fn meant(t: OpText, line_num: nat, n: nat) -> Seq<EditView> {
    let register = t.op.register;
    let rows = t.rows;
    let paste = |at: PasteTarget| seq![
        EditView::Paste { at, register, line_num, index: n, block_start: None },
    ];
    let gap = |cursor: Cursor|
        if rows.len() > 0 {
            inserts(rows, cursor, line_num, n, false, None)
        } else {
            paste(PasteTarget::Gap { cursor })
        };
    let block = |anchor: Anchor, mode: BlockMode| seq![
        EditView::Block { anchor, payloads: rows, mode, register, line_num, index: n },
    ];
    match t.op.target {
        Target::Replace { range } => if rows.len() > 0 {
            replacing(range.start.line, range.end.line, rows, line_num, n)
        } else {
            paste(PasteTarget::Span { range })
        },
        Target::Cut { range } => seq![EditView::Cut { range, register, line_num, index: n }]
            + deletes(range.start.line, range.end.line, line_num, n + 1),
        Target::Block { anchor } => block(anchor, BlockMode::Replace),
        Target::CutBlock { anchor } => block(anchor, BlockMode::Cut),
        Target::InsertBefore { anchor } => gap(Cursor::BeforeAnchor { anchor }),
        Target::InsertAfter { anchor } => gap(Cursor::AfterAnchor { anchor }),
        Target::InsertAfterBlock { anchor } => block(
            anchor,
            if rows.len() > 0 {
                BlockMode::InsertAfter
            } else {
                BlockMode::PasteAfter
            },
        ),
        Target::Bof => gap(Cursor::Bof),
        Target::Eof => gap(Cursor::Eof),
    }
}

/// The edits that several ops stand for, in their order.
pub open spec fn all_meant(ops: Seq<OpText>) -> Seq<EditView>
    decreases ops.len(),
{
    if ops.len() == 0 {
        seq![]
    } else {
        let front = ops.drop_last();
        all_meant(front) + meant(ops.last(), patch_lines(front).len() + 1, all_meant(front).len())
    }
}

pub open spec fn collected(rows: Seq<Seq<char>>, line_num: nat) -> Seq<RowView> {
    Seq::new(
        rows.len(),
        |i: int|
            RowView {
                text: rows[i],
                line_num: (line_num + i + 1) as nat,
                bare: false,
                minus: false,
            },
    )
}

pub proof fn lemma_meant(body: BodyView, t: OpText, line_num: nat)
    requires
        is_proper(t),
        body.pending is None,
        body.file_op is None,
    ensures
        op_done(body, t.op, t.rows, line_num) matches Ok(done) && done.edits == body.edits + meant(
            t,
            line_num,
            body.edits.len(),
        ) && done.pending is None && done.file_op is None,
{
    match t.op.target {
        Target::Replace { range } => {
            assert(range_error(range, line_num) is None);
        },
        Target::Cut { range } => {
            assert(range_error(range, line_num) is None);
        },
        _ => {
            assert(t.rows.len() == 0 ==> t.rows =~= seq![]);
        },
    }
}

pub proof fn lemma_fed_push(lines: Seq<Seq<char>>, line: Seq<char>)
    requires
        lines_fed(lines) is Ok,
    ensures
        lines_fed(lines.push(line)) == line_fed(lines_fed(lines)->Ok_0, line, lines.len() + 1),
{
    assert(lines.push(line).drop_last() =~= lines);
}

pub proof fn lemma_rows_collected(before: Seq<Seq<char>>, t: OpText, k: int, done: BodyView)
    requires
        is_proper(t),
        0 <= k <= t.rows.len(),
        lines_fed(before) matches Ok(body) && flushed(body) == Ok::<BodyView, Seq<char>>(done),
        done.pending is None,
        done.file_op is None,
    ensures
        ({
            let line_num = before.len() + 1;
            lines_fed(before + op_lines(t).take(k + 1)) matches Ok(now) && now.edits == done.edits
                && now.file_op is None && now.pending == Some(
                PendingView {
                    op: t.op,
                    line_num,
                    payloads: collected(t.rows.take(k), line_num),
                    deferred: seq![],
                },
            )
        }),
    decreases k,
{
    let line_num = before.len() + 1;
    let lines = op_lines(t);
    if k == 0 {
        assert(before + lines.take(1) =~= before.push(written(t.op)));
        lemma_fed_push(before, written(t.op));
        law_header_is_read(lines_fed(before)->Ok_0, t.op, line_num);
        assert(collected(t.rows.take(0), line_num) =~= seq![]);
    } else {
        lemma_rows_collected(before, t, k - 1, done);
        let so_far = before + lines.take(k);
        let row = t.rows[k - 1];
        let line = seq!['+'] + row;
        assert(lines[k] == line);
        assert(before + lines.take(k + 1) =~= so_far.push(line));
        lemma_fed_push(so_far, line);
        assert(line[0] == '+');
        lemma_plain_line(line);
        assert(line.skip(1) =~= row);
        assert(bodyless(t.op) is None);
        let had = collected(t.rows.take(k - 1), line_num);
        assert(had + Seq::<RowView>::empty() =~= had);
        assert(collected(t.rows.take(k), line_num) =~= had.push(
            RowView { text: row, line_num: so_far.len() + 1, bare: false, minus: false },
        ));
    }
}

pub proof fn lemma_ops_fed(ops: Seq<OpText>)
    requires
        forall|i: int| 0 <= i < ops.len() ==> is_proper(#[trigger] ops[i]),
    ensures
        lines_fed(patch_lines(ops)) matches Ok(body) && body.file_op is None && (flushed(
            body,
        ) matches Ok(done) && done.edits == all_meant(ops) && done.pending is None
            && done.file_op is None) && (body.pending matches Some(p)
            ==> crate::parse::is_complete(p)),
    decreases ops.len(),
{
    if ops.len() > 0 {
        let front = ops.drop_last();
        let t = ops.last();
        assert(t == ops[ops.len() - 1]);
        assert forall|i: int| 0 <= i < front.len() implies is_proper(#[trigger] front[i]) by {
            assert(front[i] == ops[i]);
        }
        lemma_ops_fed(front);
        let before = patch_lines(front);
        let done = flushed(lines_fed(before)->Ok_0)->Ok_0;
        let k = t.rows.len() as int;
        let line_num = before.len() + 1;
        lemma_rows_collected(before, t, k, done);
        assert(op_lines(t).take(k + 1) =~= op_lines(t));
        let now = lines_fed(patch_lines(ops))->Ok_0;
        let rows = collected(t.rows, line_num);
        assert(t.rows.take(k) =~= t.rows);
        law_marked_rows_are_kept(rows);
        assert(row_texts(rows) =~= t.rows);
        lemma_meant(BodyView { pending: None, ..now }, t, line_num);
    }
}

pub proof fn lemma_patch_lines_are_rows(ops: Seq<OpText>)
    requires
        forall|i: int| 0 <= i < ops.len() ==> is_proper(#[trigger] ops[i]),
    ensures
        forall|i: int| 0 <= i < patch_lines(ops).len() ==> is_row(#[trigger] patch_lines(ops)[i]),
        ops.len() > 0 ==> patch_lines(ops).len() > 0 && patch_lines(ops).last().len() > 0,
    decreases ops.len(),
{
    if ops.len() > 0 {
        let front = ops.drop_last();
        let t = ops.last();
        assert(t == ops[ops.len() - 1]);
        assert forall|i: int| 0 <= i < front.len() implies is_proper(#[trigger] front[i]) by {
            assert(front[i] == ops[i]);
        }
        lemma_patch_lines_are_rows(front);
        lemma_written_is_row(t.op);
        let a = patch_lines(front);
        let b = op_lines(t);
        let all = patch_lines(ops);
        assert forall|i: int| 0 <= i < b.len() implies is_row(#[trigger] b[i]) by {
            if i > 0 {
                let row = t.rows[i - 1];
                assert(is_row(row));
                assert(b[i] == seq!['+'] + row);
                assert forall|j: int| 0 <= j < b[i].len() implies class_has(
                    CharClass::InLine,
                    #[trigger] b[i][j],
                ) by {
                    if j > 0 {
                        assert(b[i][j] == row[j - 1]);
                    }
                }
            }
        }
        assert forall|i: int| 0 <= i < all.len() implies is_row(#[trigger] all[i]) by {
            if i < a.len() {
                assert(all[i] == a[i]);
            } else {
                assert(all[i] == b[i - a.len()]);
            }
        }
        assert(all.last() == b.last());
        if t.rows.len() > 0 {
            assert(b.last() == seq!['+'] + t.rows.last());
        }
    }
}

/// A patch of any ops, one after the other, is read as the edits that each of them stands for, in
/// their order: its rows are final content, its lines are those that its header names, and a
/// register is the one that it names. It makes no difference whether more of the input may follow.
pub proof fn law_ops_are_read_as_written(ops: Seq<OpText>, streaming: bool)
    requires
        ops.len() > 0,
        forall|i: int| 0 <= i < ops.len() ==> is_proper(#[trigger] ops[i]),
    ensures
        parsed(join_lines(patch_lines(ops)), streaming) matches Ok(body) && body.edits == all_meant(
            ops,
        ) && body.file_op is None,
{
    lemma_patch_lines_are_rows(ops);
    lemma_input_lines_of(patch_lines(ops));
    lemma_ops_fed(ops);
}

// ---------------------------------------------------------------------------------------------
// What is no header

/// A number is read where a text begins with it as numbers are written, without leading zeros, and
/// no further digit follows.
pub proof fn law_numbers_are_read(s: Seq<char>, n: usize, used: nat)
    ensures
        number_at(s) == Some((n, used)) <==> {
            &&& n > 0
            &&& used <= s.len()
            &&& s.take(used as int) == decimal(n as nat)
            &&& used < s.len() ==> !('0' <= s[used as int] <= '9')
        },
{
    let k = leading(s, CharClass::Digit);
    lemma_leading(s, CharClass::Digit);
    let digits = s.take(k as int);
    assert forall|i: int| 0 <= i < digits.len() implies class_has(
        CharClass::Digit,
        #[trigger] digits[i],
    ) by {
        assert(class_has(CharClass::Digit, s[i]));
    }
    if number_at(s) == Some((n, used)) {
        lemma_digits_back(digits);
        if n == 0 {
            assert(decimal(0)[0] == '0');
            assert(digits[0] == s[0]);
        }
    }
    if n > 0 && used <= s.len() && s.take(used as int) == decimal(n as nat) && (used < s.len()
        ==> !('0' <= s[used as int] <= '9')) {
        let d = s.take(used as int);
        law_decimal_round_trip(n as nat);
        lemma_decimal_first(n as nat);
        assert forall|i: int| 0 <= i < used implies class_has(CharClass::Digit, #[trigger] s[i]) by {
            assert(class_has(CharClass::Digit, d[i]));
        }
        lemma_leading_is(s, CharClass::Digit, used);
        assert(s[0] == d[0]);
    }
}

/// A register is read where, behind blanks, an at sign and a name stand, and as much of the name as
/// there is. What follows it is read on without blanks before it.
pub proof fn law_registers_are_read(s: Seq<char>, name: Seq<char>, rest: Seq<char>)
    ensures
        register_at(s) == Some((name, rest)) <==> exists|tail: Seq<char>|
            {
                &&& skip_blanks(s) == #[trigger] (seq!['@'] + name + tail)
                &&& is_name(name)
                &&& tail.len() > 0 ==> !is_name(seq![tail[0]])
                &&& rest == skip_blanks(tail)
            },
{
    let t = skip_blanks(s);
    let after = t.skip(1);
    let n = leading(after, CharClass::Name);
    lemma_leading(after, CharClass::Name);
    if register_at(s) == Some((name, rest)) {
        let tail = after.skip(n as int);
        assert(t =~= seq!['@'] + name + tail);
        assert forall|i: int| 0 <= i < name.len() implies ({
            let c = #[trigger] name[i];
            'a' <= c <= 'z' || 'A' <= c <= 'Z' || '0' <= c <= '9' || c == '_' || c == '-'
        }) by {
            assert(class_has(CharClass::Name, after[i]));
        }
        assert(is_name(name));
        if tail.len() > 0 {
            assert(tail[0] == after[n as int]);
            if is_name(seq![tail[0]]) {
                assert(seq![tail[0]][0] == tail[0]);
                assert(class_has(CharClass::Name, tail[0]));
            }
        }
    }
    if exists|tail: Seq<char>|
        {
            &&& skip_blanks(s) == #[trigger] (seq!['@'] + name + tail)
            &&& is_name(name)
            &&& tail.len() > 0 ==> !is_name(seq![tail[0]])
            &&& rest == skip_blanks(tail)
        } {
        let tail = choose|tail: Seq<char>|
            {
                &&& skip_blanks(s) == #[trigger] (seq!['@'] + name + tail)
                &&& is_name(name)
                &&& tail.len() > 0 ==> !is_name(seq![tail[0]])
                &&& rest == skip_blanks(tail)
            };
        assert(t[0] == '@');
        assert(after =~= name + tail);
        assert forall|i: int| 0 <= i < name.len() implies class_has(
            CharClass::Name,
            #[trigger] after[i],
        ) by {
            assert(after[i] == name[i]);
        }
        if tail.len() > 0 {
            assert(after[name.len() as int] == tail[0]);
            if class_has(CharClass::Name, tail[0]) {
                assert(forall|i: int|
                    0 <= i < seq![tail[0]].len() ==> #[trigger] seq![tail[0]][i] == tail[0]);
                assert(is_name(seq![tail[0]]));
            }
        }
        lemma_leading_is(after, CharClass::Name, name.len());
        assert(after.take(name.len() as int) =~= name);
        assert(after.skip(name.len() as int) =~= tail);
    }
}

/// What is left behind a locator, its register and its colon is refused, and so is a header that
/// names nothing, a block of a range, and a locator that begins with no number.
pub proof fn law_locators_that_are_refused(s: Seq<char>, target: Target, verb: Seq<char>, cut: bool)
    ensures
        match op_ending(target, s, verb) {
            Ok(op) => {
                &&& locator_end(s).rest.len() == 0
                &&& op.target == target
                &&& op.register == locator_end(s).register
                &&& op.had_colon == locator_end(s).had_colon
            },
            Err(_) => locator_end(s).rest.len() > 0,
        },
        skip_blanks(s).len() == 0 ==> put_op(s) == Err::<OpView, Seq<char>>("empty PUT locator"@),
        range_at(s) is None ==> span_op(s, cut, verb) is Err,
        range_at(s) matches Some(scan) && scan.had_sep && scan.rest.len() > 0 && scan.rest[0] == '*'
            ==> span_op(s, cut, verb) == Err::<OpView, Seq<char>>(
            "block locators are single lines (`N*`), never ranges"@,
        ),
        number_at(skip_blanks(s)) is None ==> range_at(s) is None,
{
}

/// Spaces and tabs alone.
pub open spec fn is_pad(pad: Seq<char>) -> bool {
    forall|i: int| 0 <= i < pad.len() ==> (#[trigger] pad[i] == ' ' || pad[i] == '\t')
}

proof fn lemma_pad_passed(pad: Seq<char>, rest: Seq<char>)
    requires
        is_pad(pad),
        rest.len() > 0 ==> rest[0] != ' ' && rest[0] != '\t',
    ensures
        skip_blanks(pad + rest) == rest,
        skip_blanks(rest) == rest,
{
    let s = pad + rest;
    assert forall|i: int| 0 <= i < pad.len() implies class_has(CharClass::Blank, #[trigger] s[i]) by {
        assert(s[i] == pad[i]);
    }
    if rest.len() > 0 {
        assert(s[pad.len() as int] == rest[0]);
    }
    lemma_leading_is(s, CharClass::Blank, pad.len());
    assert(s.skip(pad.len() as int) =~= rest);
    lemma_front_kept(rest);
}

/// Spaces and tabs may stand before the colon of an op, behind it, and round the name of its
/// register.
pub proof fn law_ends_of_ops_may_be_padded(
    target: Target,
    name: Seq<char>,
    first: Seq<char>,
    second: Seq<char>,
    third: Seq<char>,
    verb: Seq<char>,
)
    requires
        is_name(name),
        is_pad(first),
        is_pad(second),
        is_pad(third),
    ensures
        op_ending(target, first + (seq![':'] + third), verb) == Ok::<OpView, Seq<char>>(
            OpView { target, register: None, had_colon: true },
        ),
        op_ending(target, first, verb) == Ok::<OpView, Seq<char>>(
            OpView { target, register: None, had_colon: false },
        ),
        op_ending(target, first + (seq!['@'] + (name + (second + (seq![':'] + third)))), verb) == Ok::<
            OpView,
            Seq<char>,
        >(OpView { target, register: Some(name), had_colon: true }),
        op_ending(target, first + (seq!['@'] + (name + second)), verb) == Ok::<OpView, Seq<char>>(
            OpView { target, register: Some(name), had_colon: false },
        ),
{
    let none = Seq::<char>::empty();
    let colon = seq![':'] + third;
    assert(first + none =~= first);
    assert(second + none =~= second);
    assert(third + none =~= third);
    lemma_pad_passed(first, none);
    lemma_pad_passed(second, none);
    lemma_pad_passed(third, none);
    assert(colon[0] == ':');
    assert(colon.skip(1) =~= third);
    lemma_pad_passed(first, colon);
    lemma_pad_passed(second, colon);
    assert(register_at(colon) is None);
    lemma_padded_name(first, name, second);
    lemma_padded_name(first, name, second + colon);
}

proof fn lemma_padded_name(pad: Seq<char>, name: Seq<char>, rest: Seq<char>)
    requires
        is_pad(pad),
        is_name(name),
        rest.len() > 0 ==> rest[0] == ' ' || rest[0] == '\t' || rest[0] == ':',
    ensures
        skip_blanks(pad + (seq!['@'] + (name + rest))) == seq!['@'] + (name + rest),
        register_at(seq!['@'] + (name + rest)) == Some((name, skip_blanks(rest))),
{
    let t = seq!['@'] + (name + rest);
    let after = name + rest;
    assert(t[0] == '@');
    lemma_pad_passed(pad, t);
    assert(t.skip(1) =~= after);
    assert forall|i: int| 0 <= i < name.len() implies class_has(
        CharClass::Name,
        #[trigger] after[i],
    ) by {
        assert(after[i] == name[i]);
    }
    if rest.len() > 0 {
        assert(after[name.len() as int] == rest[0]);
    }
    lemma_leading_is(after, CharClass::Name, name.len());
    assert(after.take(name.len() as int) =~= name);
    assert(after.skip(name.len() as int) =~= rest);
}

} // verus!
