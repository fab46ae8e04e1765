//! Reading line numbers, ranges and registers out of an op header.

use crate::text::{
    all_in_class, all_of, at_line, chars_of, count_leading, decimal, digits_value, first_is,
    leading, lemma_leading, line_message, parse_digits, push_decimal, skip, starts_with_char,
    string_of, take, trim, trim_start, trimmed, trimmed_start, CharClass,
};
use crate::types::{opt_text, Anchor, ParsedRange, MAX_RANGE_LINES};
use vstd::prelude::*;

verus! {

#[derive(Debug)]
pub enum ParseError {
    Message(String),
}

impl View for ParseError {
    type V = Seq<char>;

    open spec fn view(&self) -> Seq<char> {
        match self {
            ParseError::Message(m) => m@,
        }
    }
}

impl ParseError {
    pub fn message(&self) -> (m: String)
        ensures
            m@ == self@,
    {
        match self {
            ParseError::Message(m) => m.clone(),
        }
    }
}

/// What the standard library's `Debug` formatting makes of a string: the string in double quotes,
/// with escapes.
pub uninterp spec fn debug_quoted(s: Seq<char>) -> Seq<char>;

/// `format!("{s:?}")` of the standard library: what comes out depends on the string alone. Which
/// characters it escapes is not stated.
#[verifier::external_body]
pub(crate) fn quoted(s: &str) -> (r: String)
    ensures
        r@ == debug_quoted(s@),
{
    format!("{s:?}")
}

// ---------------------------------------------------------------------------------------------
// Model

/// What an op header addresses.
#[derive(Debug, Clone, Copy, PartialEq, Eq, Structural)]
pub enum Target {
    Replace { range: ParsedRange },
    Block { anchor: Anchor },
    InsertBefore { anchor: Anchor },
    InsertAfter { anchor: Anchor },
    InsertAfterBlock { anchor: Anchor },
    Cut { range: ParsedRange },
    CutBlock { anchor: Anchor },
    Bof,
    Eof,
}

pub open spec fn skip_blanks(s: Seq<char>) -> Seq<char> {
    trimmed_start(s, CharClass::Blank)
}

/// The line number that `s` stands for: digits without a leading zero, not zero, and within 63
/// bits.
pub open spec fn lid_value(s: Seq<char>) -> Option<nat> {
    let t = trimmed(s);
    if t.len() > 0 && all_of(t, CharClass::Digit) && !(t.len() > 1 && t[0] == '0') && 0
        < digits_value(t) <= i64::MAX {
        Some(digits_value(t))
    } else {
        None
    }
}

pub open spec fn bad_lid(s: Seq<char>, line_num: nat) -> Seq<char> {
    at_line(line_num) + "invalid line number "@ + debug_quoted(s)
}

/// The line number at the front of `s`, and how many characters it takes.
pub open spec fn number_at(s: Seq<char>) -> Option<(usize, nat)> {
    let n = leading(s, CharClass::Digit);
    let value = digits_value(s.take(n as int));
    if n > 0 && s[0] != '0' && value <= usize::MAX {
        Some((value as usize, n))
    } else {
        None
    }
}

/// A range at the front of a locator: its ends, whether anything stood between or behind them that
/// separates numbers, and what follows.
#[verifier::ext_equal]
pub struct RangeScan {
    pub range: ParsedRange,
    pub had_sep: bool,
    pub rest: Seq<char>,
}

pub open spec fn range_of(start: usize, end: usize) -> ParsedRange {
    ParsedRange { start: Anchor { line: start }, end: Anchor { line: end } }
}

/// `N`, or `N` and `M` with any run of separators between. A separator behind a single number may
/// only be followed by a colon, a register or nothing.
pub open spec fn range_at(s: Seq<char>) -> Option<RangeScan> {
    let t = skip_blanks(s);
    match number_at(t) {
        None => None,
        Some((start, used)) => {
            let after = t.skip(used as int);
            let sep = leading(after, CharClass::Separator);
            if sep == 0 {
                Some(
                    RangeScan {
                        range: range_of(start, start),
                        had_sep: false,
                        rest: skip_blanks(after),
                    },
                )
            } else {
                let second = skip_blanks(after.skip(sep as int));
                match number_at(second) {
                    Some((end, used)) => Some(
                        RangeScan {
                            range: range_of(start, end),
                            had_sep: true,
                            rest: skip_blanks(second.skip(used as int)),
                        },
                    ),
                    None => if second.len() == 0 || second[0] == ':' || second[0] == '@' {
                        Some(
                            RangeScan {
                                range: range_of(start, start),
                                had_sep: true,
                                rest: second,
                            },
                        )
                    } else {
                        None
                    },
                }
            }
        },
    }
}

/// `@NAME` and what follows it; a name has one to sixty-four characters.
pub open spec fn register_at(s: Seq<char>) -> Option<(Seq<char>, Seq<char>)> {
    let t = skip_blanks(s);
    if !starts_with_char(t, '@') {
        None
    } else {
        let name = t.skip(1);
        let n = leading(name, CharClass::Name);
        if n == 0 || n > 64 {
            None
        } else {
            Some((name.take(n as int), skip_blanks(name.skip(n as int))))
        }
    }
}

/// What ends a locator: a register, a colon, and whatever follows them.
#[verifier::ext_equal]
pub struct LocatorEnd {
    pub register: Option<Seq<char>>,
    pub had_colon: bool,
    pub rest: Seq<char>,
}

pub open spec fn locator_end(s: Seq<char>) -> LocatorEnd {
    let t = skip_blanks(s);
    let (register, after) = match register_at(t) {
        Some((name, after)) => (Some(name), skip_blanks(after)),
        None => (None, t),
    };
    if starts_with_char(after, ':') {
        LocatorEnd { register, had_colon: true, rest: skip_blanks(after.skip(1)) }
    } else {
        LocatorEnd { register, had_colon: false, rest: after }
    }
}

/// A read op header.
#[verifier::ext_equal]
pub struct OpView {
    pub target: Target,
    pub register: Option<Seq<char>>,
    pub had_colon: bool,
}

/// The op on `target` that `s` ends, or the complaint about what follows its end.
pub open spec fn op_ending(target: Target, s: Seq<char>, verb: Seq<char>) -> Result<
    OpView,
    Seq<char>,
> {
    let end = locator_end(s);
    if end.rest.len() > 0 {
        Err("trailing junk after "@ + verb + " locator: "@ + debug_quoted(end.rest))
    } else {
        Ok(OpView { target, register: end.register, had_colon: end.had_colon })
    }
}

pub open spec fn invalid_locator(s: Seq<char>, verb: Seq<char>) -> Seq<char> {
    "invalid "@ + verb + " locator "@ + debug_quoted(s)
}

/// `N*` (to `block`) or a range (to `span`).
pub open spec fn span_op(s: Seq<char>, cut: bool, verb: Seq<char>) -> Result<OpView, Seq<char>> {
    match range_at(s) {
        None => Err(invalid_locator(s, verb)),
        Some(scan) => if starts_with_char(scan.rest, '*') {
            if scan.had_sep {
                Err("block locators are single lines (`N*`), never ranges"@)
            } else {
                op_ending(
                    if cut {
                        Target::CutBlock { anchor: scan.range.start }
                    } else {
                        Target::Block { anchor: scan.range.start }
                    },
                    scan.rest.skip(1),
                    verb,
                )
            }
        } else {
            op_ending(
                if cut {
                    Target::Cut { range: scan.range }
                } else {
                    Target::Replace { range: scan.range }
                },
                scan.rest,
                verb,
            )
        },
    }
}

/// `<N`, `>N`, `>N*` or `>$`: the gap before or after a line, after a block, or at the tail. The
/// gap before the first line is the head.
pub open spec fn gap_op(s: Seq<char>) -> Result<OpView, Seq<char>> {
    let is_after = s[0] == '>';
    let t = skip_blanks(s.skip(1));
    if is_after && starts_with_char(t, '$') {
        op_ending(Target::Eof, t.skip(1), "PUT"@)
    } else {
        match number_at(t) {
            None => Err(invalid_locator(s, "PUT"@)),
            Some((n, used)) => {
                let after = t.skip(used as int);
                let block = starts_with_char(after, '*');
                let anchor = Anchor { line: n };
                let target = if is_after {
                    if block {
                        Target::InsertAfterBlock { anchor }
                    } else {
                        Target::InsertAfter { anchor }
                    }
                } else if n == 1 {
                    Target::Bof
                } else {
                    Target::InsertBefore { anchor }
                };
                op_ending(
                    target,
                    if block {
                        after.skip(1)
                    } else {
                        after
                    },
                    "PUT"@,
                )
            },
        }
    }
}

/// What follows `PUT`.
pub open spec fn put_op(locator: Seq<char>) -> Result<OpView, Seq<char>> {
    let s = skip_blanks(locator);
    if s.len() == 0 {
        Err("empty PUT locator"@)
    } else if s[0] == '<' || s[0] == '>' {
        gap_op(s)
    } else {
        span_op(s, false, "PUT"@)
    }
}

/// What follows `CUT`.
pub open spec fn cut_op(locator: Seq<char>) -> Result<OpView, Seq<char>> {
    span_op(locator, true, "CUT"@)
}

/// What is wrong with a range, if anything is.
pub open spec fn range_error(range: ParsedRange, line_num: nat) -> Option<Seq<char>> {
    let start = range.start.line as nat;
    let end = range.end.line as nat;
    if start == 0 || end == 0 {
        Some(at_line(line_num) + "line numbers start at 1"@)
    } else if end < start {
        Some(at_line(line_num) + "inverted range "@ + decimal(start) + ".="@ + decimal(end))
    } else if end - start + 1 > MAX_RANGE_LINES {
        Some(
            at_line(line_num) + "replace range spans "@ + decimal((end - start + 1) as nat)
                + " lines; the maximum is "@ + decimal(MAX_RANGE_LINES as nat),
        )
    } else {
        None
    }
}

// ---------------------------------------------------------------------------------------------
// Executable functions

/// A read op header.
pub struct Op {
    pub target: Target,
    pub register: Option<String>,
    pub had_colon: bool,
}

impl View for Op {
    type V = OpView;

    open spec fn view(&self) -> OpView {
        OpView {
            target: self.target,
            register: opt_text(self.register),
            had_colon: self.had_colon,
        }
    }
}

/// Whether an outcome of the model and a result agree.
pub open spec fn op_result(res: Result<Op, ParseError>, expected: Result<OpView, Seq<char>>) -> bool {
    match res {
        Ok(op) => expected == Ok::<OpView, Seq<char>>(op@),
        Err(e) => expected == Err::<OpView, Seq<char>>(e@),
    }
}

/// Read a line number.
pub fn parse_lid(raw: &str, line_num: usize) -> (res: Result<Anchor, ParseError>)
    ensures
        match res {
            Ok(a) => lid_value(raw@) is Some && a.line == lid_value(raw@)->0 as usize,
            Err(e) => lid_value(raw@) is None && e@ == bad_lid(raw@, line_num as nat),
        },
{
    let chars = chars_of(raw);
    let t = trim(chars.as_slice());
    if t.len() > 0 && all_in_class(t, CharClass::Digit) && !(t.len() > 1 && t[0] == '0') {
        if let Some(line) = parse_digits(t) {
            if line != 0 && line <= i64::MAX as u64 {
                return Ok(Anchor { line: line as usize });
            }
        }
    }
    let mut message = line_message(line_num);
    message.append("invalid line number ");
    message.append(quoted(raw).as_str());
    Err(ParseError::Message(message))
}

pub fn validate_range(range: ParsedRange, line_num: usize) -> (res: Result<(), ParseError>)
    ensures
        match res {
            Ok(_) => range_error(range, line_num as nat) is None,
            Err(e) => range_error(range, line_num as nat) == Some(e@),
        },
{
    let start = range.start.line;
    let end = range.end.line;
    if start == 0 || end == 0 {
        let mut message = line_message(line_num);
        message.append("line numbers start at 1");
        return Err(ParseError::Message(message));
    }
    if end < start {
        let mut message = line_message(line_num);
        message.append("inverted range ");
        push_decimal(&mut message, start);
        message.append(".=");
        push_decimal(&mut message, end);
        return Err(ParseError::Message(message));
    }
    let span = end - start + 1;
    if span > MAX_RANGE_LINES {
        let mut message = line_message(line_num);
        message.append("replace range spans ");
        push_decimal(&mut message, span);
        message.append(" lines; the maximum is ");
        push_decimal(&mut message, MAX_RANGE_LINES);
        return Err(ParseError::Message(message));
    }
    Ok(())
}

fn skip_ws(s: &[char]) -> (r: &[char])
    ensures
        r@ == skip_blanks(s@),
        r@.len() <= s@.len(),
{
    trim_start(s, CharClass::Blank)
}

fn scan_line_number(s: &[char]) -> (r: Option<(usize, usize)>)
    ensures
        match r {
            Some((n, used)) => number_at(s@) == Some((n, used as nat)) && used <= s@.len(),
            None => number_at(s@) is None,
        },
{
    let n = count_leading(s, CharClass::Digit);
    if n == 0 || s[0] == '0' {
        return None;
    }
    let digits = take(s, n);
    proof {
        lemma_leading(s@, CharClass::Digit);
        assert forall|i: int| 0 <= i < digits@.len() implies crate::text::class_has(
            CharClass::Digit,
            #[trigger] digits@[i],
        ) by {
            assert(digits@[i] == s@[i]);
        }
    }
    match parse_digits(digits) {
        Some(value) => {
            if value <= usize::MAX as u64 {
                Some((value as usize, n))
            } else {
                None
            }
        },
        None => None,
    }
}

fn scan_range(s: &[char]) -> (r: Option<(ParsedRange, bool, &[char])>)
    ensures
        match r {
            Some((range, had_sep, rest)) => range_at(s@) == Some(
                RangeScan { range, had_sep, rest: rest@ },
            ),
            None => range_at(s@) is None,
        },
{
    let t = skip_ws(s);
    let (start, used) = match scan_line_number(t) {
        Some(found) => found,
        None => {
            return None;
        },
    };
    let after = skip(t, used);
    let sep = count_leading(after, CharClass::Separator);
    let single = ParsedRange { start: Anchor { line: start }, end: Anchor { line: start } };
    if sep == 0 {
        return Some((single, false, skip_ws(after)));
    }
    let second = skip_ws(skip(after, sep));
    match scan_line_number(second) {
        Some((end, used)) => Some(
            (
                ParsedRange { start: Anchor { line: start }, end: Anchor { line: end } },
                true,
                skip_ws(skip(second, used)),
            ),
        ),
        None => {
            if second.len() == 0 || second[0] == ':' || second[0] == '@' {
                Some((single, true, second))
            } else {
                None
            }
        },
    }
}

fn scan_register(s: &[char]) -> (r: Option<(String, &[char])>)
    ensures
        match r {
            Some((name, rest)) => register_at(s@) == Some((name@, rest@)),
            None => register_at(s@) is None,
        },
{
    let t = skip_ws(s);
    if !first_is(t, '@') {
        return None;
    }
    let name = skip(t, 1);
    let n = count_leading(name, CharClass::Name);
    if n == 0 || n > 64 {
        return None;
    }
    Some((string_of(take(name, n)), skip_ws(skip(name, n))))
}

fn finish_target(s: &[char]) -> (r: (Option<String>, bool, &[char]))
    ensures
        locator_end(s@) == (LocatorEnd { register: opt_text(r.0), had_colon: r.1, rest: r.2@ }),
{
    let t = skip_ws(s);
    let (register, after) = match scan_register(t) {
        Some((name, after)) => (Some(name), skip_ws(after)),
        None => (None, t),
    };
    if first_is(after, ':') {
        (register, true, skip_ws(skip(after, 1)))
    } else {
        (register, false, after)
    }
}

fn end_op(target: Target, s: &[char], verb: &str) -> (res: Result<Op, ParseError>)
    ensures
        op_result(res, op_ending(target, s@, verb@)),
{
    let (register, had_colon, rest) = finish_target(s);
    if rest.len() > 0 {
        let mut message = "trailing junk after ".to_owned();
        message.append(verb);
        message.append(" locator: ");
        message.append(quoted(string_of(rest).as_str()).as_str());
        return Err(ParseError::Message(message));
    }
    Ok(Op { target, register, had_colon })
}

fn invalid_locator_error(s: &[char], verb: &str) -> (e: ParseError)
    ensures
        e@ == invalid_locator(s@, verb@),
{
    let mut message = "invalid ".to_owned();
    message.append(verb);
    message.append(" locator ");
    message.append(quoted(string_of(s).as_str()).as_str());
    ParseError::Message(message)
}

fn parse_span_target(s: &[char], cut: bool, verb: &str) -> (res: Result<Op, ParseError>)
    ensures
        op_result(res, span_op(s@, cut, verb@)),
{
    let (range, had_sep, rest) = match scan_range(s) {
        Some(found) => found,
        None => {
            return Err(invalid_locator_error(s, verb));
        },
    };
    if first_is(rest, '*') {
        if had_sep {
            return Err(
                ParseError::Message(
                    "block locators are single lines (`N*`), never ranges".to_owned(),
                ),
            );
        }
        let target = if cut {
            Target::CutBlock { anchor: range.start }
        } else {
            Target::Block { anchor: range.start }
        };
        return end_op(target, skip(rest, 1), verb);
    }
    let target = if cut {
        Target::Cut { range }
    } else {
        Target::Replace { range }
    };
    end_op(target, rest, verb)
}

fn parse_gap_target(s: &[char]) -> (res: Result<Op, ParseError>)
    requires
        s@.len() > 0,
    ensures
        op_result(res, gap_op(s@)),
{
    let is_after = s[0] == '>';
    let t = skip_ws(skip(s, 1));
    if is_after && first_is(t, '$') {
        return end_op(Target::Eof, skip(t, 1), "PUT");
    }
    let (n, used) = match scan_line_number(t) {
        Some(found) => found,
        None => {
            return Err(invalid_locator_error(s, "PUT"));
        },
    };
    let after = skip(t, used);
    let block = first_is(after, '*');
    let anchor = Anchor { line: n };
    let target = if is_after {
        if block {
            Target::InsertAfterBlock { anchor }
        } else {
            Target::InsertAfter { anchor }
        }
    } else if n == 1 {
        Target::Bof
    } else {
        Target::InsertBefore { anchor }
    };
    if block {
        end_op(target, skip(after, 1), "PUT")
    } else {
        end_op(target, after, "PUT")
    }
}

/// Read what follows `PUT`.
pub fn parse_put_target(locator: &[char]) -> (res: Result<Op, ParseError>)
    ensures
        op_result(res, put_op(locator@)),
{
    let s = skip_ws(locator);
    if s.len() == 0 {
        return Err(ParseError::Message("empty PUT locator".to_owned()));
    }
    if s[0] == '<' || s[0] == '>' {
        return parse_gap_target(s);
    }
    parse_span_target(s, false, "PUT")
}

/// Read what follows `CUT`.
pub fn parse_cut_target(locator: &[char]) -> (res: Result<Op, ParseError>)
    ensures
        op_result(res, cut_op(locator@)),
{
    parse_span_target(locator, true, "CUT")
}

} // verus!
