//! Body rows of an op: rows that are not marked with `+`, and what is stripped from them.

use crate::scan::ParseError;
use crate::text::{
    all_in_class, all_of, at_line, blank, chars_of, count_leading, ends_with_char, first_is,
    in_class, is_blank, is_white, last_is, leading, line_message, same_as, skip, starts_with,
    starts_with_char, string_of, strip_prefix, strs, trim, trim_end, trim_start, trimmed,
    trimmed_end, trimmed_start, uppercase, uppercase_string, CharClass,
};
use vstd::prelude::*;

verus! {

/// A body row. A row is bare where it was not marked with `+`, and a minus row where it is bare and
/// begins with a minus sign.
pub struct PayloadRow {
    pub text: String,
    pub line_num: usize,
    pub bare: bool,
    pub minus: bool,
}

#[verifier::ext_equal]
pub struct RowView {
    pub text: Seq<char>,
    pub line_num: nat,
    pub bare: bool,
    pub minus: bool,
}

impl View for PayloadRow {
    type V = RowView;

    open spec fn view(&self) -> RowView {
        RowView {
            text: self.text@,
            line_num: self.line_num as nat,
            bare: self.bare,
            minus: self.minus,
        }
    }
}

pub open spec fn row_views(rows: Seq<PayloadRow>) -> Seq<RowView> {
    Seq::new(rows.len(), |i: int| rows[i]@)
}

pub open spec fn row_texts(rows: Seq<RowView>) -> Seq<Seq<char>> {
    Seq::new(rows.len(), |i: int| rows[i].text)
}

// ---------------------------------------------------------------------------------------------
// Minus rows

pub open spec fn is_bullet(text: Seq<char>) -> bool {
    "- "@.is_prefix_of(trimmed_start(text, CharClass::White))
}

pub open spec fn first_minus(rows: Seq<RowView>) -> Option<RowView>
    decreases rows.len(),
{
    if rows.len() == 0 {
        None
    } else {
        match first_minus(rows.drop_last()) {
            Some(row) => Some(row),
            None => if rows.last().minus {
                Some(rows.last())
            } else {
                None
            },
        }
    }
}

pub open spec fn without_minus(rows: Seq<RowView>) -> Seq<RowView>
    decreases rows.len(),
{
    if rows.len() == 0 {
        seq![]
    } else {
        let front = without_minus(rows.drop_last());
        if rows.last().minus {
            front
        } else {
            front.push(rows.last())
        }
    }
}

pub open spec fn minus_all_bullets(rows: Seq<RowView>) -> bool {
    forall|i: int|
        0 <= i < rows.len() && (#[trigger] rows[i]).minus ==> is_bullet(rows[i].text)
}

pub open spec fn has_marked(rows: Seq<RowView>) -> bool {
    exists|i: int| 0 <= i < rows.len() && !(#[trigger] rows[i]).bare
}

pub open spec fn has_marked_bullet(rows: Seq<RowView>) -> bool {
    exists|i: int| 0 <= i < rows.len() && !(#[trigger] rows[i]).bare && is_bullet(rows[i].text)
}

/// Minus rows are kept where all of them are Markdown bullets and either no row is marked or a
/// marked row is a bullet too. Beside marked rows, other minus rows are taken for the old side of
/// a diff and dropped. Without marked rows they are refused.
pub open spec fn minus_resolved(rows: Seq<RowView>) -> Result<Seq<RowView>, Seq<char>> {
    match first_minus(rows) {
        None => Ok(rows),
        Some(first) => if minus_all_bullets(rows) && (!has_marked(rows) || has_marked_bullet(
            rows,
        )) {
            Ok(rows)
        } else if has_marked(rows) && !minus_all_bullets(rows) {
            Ok(without_minus(rows))
        } else {
            Err(
                at_line(first.line_num)
                    + "body rows starting with `-` are not hashline; use `+` for final content"@,
            )
        },
    }
}

// ---------------------------------------------------------------------------------------------
// Copied line prefixes

/// `s` without `marker` and the white space that follows it, or `s`.
pub open spec fn past_marker(s: Seq<char>, marker: Seq<char>) -> Seq<char> {
    if marker.is_prefix_of(s) {
        trimmed_start(s.skip(marker.len() as int), CharClass::White)
    } else {
        s
    }
}

/// `s` without a diff or list sign that white space follows, or `s`.
pub open spec fn past_sign(s: Seq<char>) -> Seq<char> {
    if s.len() > 1 && (s[0] == '+' || s[0] == '*' || s[0] == '-') && is_white(s[1]) {
        trimmed_start(s.skip(1), CharClass::White)
    } else {
        s
    }
}

/// What follows a copied line number: `N:` or `N|`, possibly behind markers.
pub open spec fn unnumbered(line: Seq<char>) -> Option<Seq<char>> {
    let s = past_sign(
        past_marker(past_marker(trimmed_start(line, CharClass::White), ">>>"@), ">>"@),
    );
    let n = leading(s, CharClass::Digit);
    let after = s.skip(n as int);
    if n == 0 || s[0] == '0' {
        None
    } else if starts_with_char(after, ':') || starts_with_char(after, '|') {
        Some(after.skip(1))
    } else {
        None
    }
}

/// `line` without a copied line number.
pub open spec fn without_number(line: Seq<char>) -> Seq<char> {
    match unnumbered(line) {
        Some(rest) => rest,
        None => line,
    }
}

/// The rest of a decimal number that is an exponent, or nothing.
pub open spec fn is_exponent(s: Seq<char>) -> bool {
    if s.len() == 0 {
        true
    } else if s[0] != 'e' && s[0] != 'E' {
        false
    } else {
        let digits = unsigned(s.skip(1));
        digits.len() > 0 && all_of(digits, CharClass::Digit)
    }
}

pub open spec fn unsigned(s: Seq<char>) -> Seq<char> {
    if starts_with_char(s, '+') || starts_with_char(s, '-') {
        s.skip(1)
    } else {
        s
    }
}

/// Digits with an optional point among, before or after them, and an optional exponent.
pub open spec fn is_decimal(s: Seq<char>) -> bool {
    let whole = leading(s, CharClass::Digit);
    let rest = s.skip(whole as int);
    if starts_with_char(rest, '.') {
        let fraction = leading(rest.skip(1), CharClass::Digit);
        whole + fraction > 0 && is_exponent(rest.skip(1 + fraction as int))
    } else {
        whole > 0 && is_exponent(rest)
    }
}

/// The texts that the standard library reads as a floating-point number.
pub open spec fn is_float(s: Seq<char>) -> bool {
    let t = unsigned(s);
    let name = uppercase(t);
    name == "INF"@ || name == "INFINITY"@ || name == "NAN"@ || is_decimal(t)
}

/// A quoted text or a number, with trailing commas or not.
pub open spec fn is_literal(text: Seq<char>) -> bool {
    let t = trimmed(text);
    ||| starts_with_char(t, '"') && ends_with_char(t, '"')
    ||| starts_with_char(t, '\'') && ends_with_char(t, '\'')
    ||| is_float(t)
    ||| is_float(trimmed_end(t, CharClass::Comma))
}

/// The rows that a copied line number may be stripped from.
pub open spec fn may_strip(row: RowView) -> bool {
    row.bare && !is_blank(row.text)
}

/// Whether the bare rows were copied with line numbers: each of them has one, and not all of what
/// follows looks like the value of a map from numbers.
pub open spec fn is_numbered_copy(rows: Seq<RowView>) -> bool {
    &&& forall|i: int|
        0 <= i < rows.len() && may_strip(#[trigger] rows[i]) ==> unnumbered(rows[i].text) is Some
    &&& exists|i: int|
        0 <= i < rows.len() && may_strip(#[trigger] rows[i]) && !is_literal(
            without_number(rows[i].text),
        )
}

pub open spec fn strip_row(row: RowView) -> RowView {
    if may_strip(row) {
        RowView { text: without_number(row.text), ..row }
    } else {
        row
    }
}

pub open spec fn prefixes_stripped(rows: Seq<RowView>) -> Seq<RowView> {
    if is_numbered_copy(rows) {
        Seq::new(rows.len(), |i: int| strip_row(rows[i]))
    } else {
        rows
    }
}

// ---------------------------------------------------------------------------------------------
// Executable functions

fn bullet(text: &str) -> (yes: bool)
    ensures
        yes == is_bullet(text@),
{
    let chars = chars_of(text);
    starts_with(trim_start(chars.as_slice(), CharClass::White), "- ")
}

/// Keep, drop or refuse minus rows.
pub fn resolve_minus_rows(rows: Vec<PayloadRow>) -> (res: Result<Vec<PayloadRow>, ParseError>)
    ensures
        match res {
            Ok(out) => minus_resolved(row_views(rows@)) == Ok::<Seq<RowView>, Seq<char>>(
                row_views(out@),
            ),
            Err(e) => minus_resolved(row_views(rows@)) == Err::<Seq<RowView>, Seq<char>>(e@),
        },
{
    let ghost all = row_views(rows@);
    let mut first: Option<usize> = None;
    let mut all_bullet = true;
    let mut marked = false;
    let mut marked_bullet = false;
    let mut i: usize = 0;
    proof {
        assert(all.take(0) =~= seq![]);
    }
    while i < rows.len()
        invariant
            i <= rows.len(),
            all == row_views(rows@),
            match first {
                Some(n) => first_minus(all.take(i as int)) is Some && first_minus(
                    all.take(i as int),
                )->0.line_num == n,
                None => first_minus(all.take(i as int)) is None,
            },
            all_bullet == minus_all_bullets(all.take(i as int)),
            marked == has_marked(all.take(i as int)),
            marked_bullet == has_marked_bullet(all.take(i as int)),
        decreases rows.len() - i,
    {
        let row = &rows[i];
        let is_a_bullet = bullet(row.text.as_str());
        let ghost a = all.take(i as int);
        let ghost b = all.take(i + 1);
        proof {
            assert(b.drop_last() =~= a);
            assert(b[i as int] == row@);
            lemma_minus_step(all, i as int);
        }
        if row.minus {
            if first.is_none() {
                first = Some(row.line_num);
            }
            if !is_a_bullet {
                all_bullet = false;
            }
        }
        if !row.bare {
            marked = true;
            if is_a_bullet {
                marked_bullet = true;
            }
        }
        i += 1;
    }
    proof {
        assert(all.take(i as int) =~= all);
    }
    let line_num = match first {
        Some(n) => n,
        None => {
            return Ok(rows);
        },
    };
    if all_bullet && (!marked || marked_bullet) {
        return Ok(rows);
    }
    if marked && !all_bullet {
        return Ok(drop_minus(rows));
    }
    let mut message = line_message(line_num);
    message.append("body rows starting with `-` are not hashline; use `+` for final content");
    Err(ParseError::Message(message))
}

proof fn lemma_minus_step(rows: Seq<RowView>, i: int)
    requires
        0 <= i < rows.len(),
    ensures
        ({
            let a = rows.take(i);
            let b = rows.take(i + 1);
            let row = rows[i];
            &&& minus_all_bullets(b) == (minus_all_bullets(a) && (row.minus ==> is_bullet(
                row.text,
            )))
            &&& has_marked(b) == (has_marked(a) || !row.bare)
            &&& has_marked_bullet(b) == (has_marked_bullet(a) || (!row.bare && is_bullet(
                row.text,
            )))
        }),
{
    let a = rows.take(i);
    let b = rows.take(i + 1);
    assert forall|k: int| 0 <= k < i implies a[k] == #[trigger] b[k] by {}
    assert(b[i] == rows[i]);
    if minus_all_bullets(b) {
        assert forall|k: int| 0 <= k < a.len() && (#[trigger] a[k]).minus implies is_bullet(
            a[k].text,
        ) by {
            assert(b[k].minus);
        }
    }
    if has_marked(a) {
        let k = choose|k: int| 0 <= k < a.len() && !(#[trigger] a[k]).bare;
        assert(!b[k].bare);
    }
    if has_marked(b) {
        let k = choose|k: int| 0 <= k < b.len() && !(#[trigger] b[k]).bare;
        if k < i {
            assert(!a[k].bare);
        }
    }
    if has_marked_bullet(a) {
        let k = choose|k: int|
            0 <= k < a.len() && !(#[trigger] a[k]).bare && is_bullet(a[k].text);
        assert(!b[k].bare);
    }
    if has_marked_bullet(b) {
        let k = choose|k: int|
            0 <= k < b.len() && !(#[trigger] b[k]).bare && is_bullet(b[k].text);
        if k < i {
            assert(!a[k].bare);
        }
    }
}

fn drop_minus(rows: Vec<PayloadRow>) -> (out: Vec<PayloadRow>)
    ensures
        row_views(out@) == without_minus(row_views(rows@)),
{
    let ghost all = row_views(rows@);
    let mut out: Vec<PayloadRow> = Vec::new();
    let mut i: usize = 0;
    proof {
        assert(all.take(0) =~= seq![]);
        assert(row_views(out@) =~= seq![]);
    }
    while i < rows.len()
        invariant
            i <= rows.len(),
            all == row_views(rows@),
            row_views(out@) == without_minus(all.take(i as int)),
        decreases rows.len() - i,
    {
        let row = &rows[i];
        proof {
            assert(all.take(i + 1).drop_last() =~= all.take(i as int));
            assert(all.take(i + 1).last() == row@);
        }
        if !row.minus {
            let ghost had = row_views(out@);
            let kept = PayloadRow {
                text: row.text.clone(),
                line_num: row.line_num,
                bare: row.bare,
                minus: row.minus,
            };
            out.push(kept);
            proof {
                assert(row_views(out@) =~= had.push(row@));
            }
        }
        i += 1;
    }
    proof {
        assert(all.take(i as int) =~= all);
    }
    out
}

fn skip_marker<'a>(s: &'a [char], marker: &str) -> (r: &'a [char])
    ensures
        r@ == past_marker(s@, marker@),
{
    match strip_prefix(s, marker) {
        Some(rest) => trim_start(rest, CharClass::White),
        None => s,
    }
}

fn skip_sign(s: &[char]) -> (r: &[char])
    ensures
        r@ == past_sign(s@),
{
    if s.len() > 1 && (s[0] == '+' || s[0] == '*' || s[0] == '-') && in_class(
        CharClass::White,
        s[1],
    ) {
        trim_start(skip(s, 1), CharClass::White)
    } else {
        s
    }
}

fn strip_one_leading_prefix(line: &str) -> (r: Option<String>)
    ensures
        match r {
            Some(rest) => unnumbered(line@) == Some(rest@),
            None => unnumbered(line@) is None,
        },
{
    let chars = chars_of(line);
    let start = trim_start(chars.as_slice(), CharClass::White);
    let s = skip_sign(skip_marker(skip_marker(start, ">>>"), ">>"));
    let n = count_leading(s, CharClass::Digit);
    if n == 0 || s[0] == '0' {
        return None;
    }
    let after = skip(s, n);
    if first_is(after, ':') || first_is(after, '|') {
        Some(string_of(skip(after, 1)))
    } else {
        None
    }
}

fn skip_number_sign(s: &[char]) -> (r: &[char])
    ensures
        r@ == unsigned(s@),
{
    if first_is(s, '+') || first_is(s, '-') {
        skip(s, 1)
    } else {
        s
    }
}

fn exponent(s: &[char]) -> (yes: bool)
    ensures
        yes == is_exponent(s@),
{
    if s.len() == 0 {
        return true;
    }
    if s[0] != 'e' && s[0] != 'E' {
        return false;
    }
    let digits = skip_number_sign(skip(s, 1));
    digits.len() > 0 && all_in_class(digits, CharClass::Digit)
}

fn decimal_number(s: &[char]) -> (yes: bool)
    ensures
        yes == is_decimal(s@),
{
    let whole = count_leading(s, CharClass::Digit);
    let rest = skip(s, whole);
    if first_is(rest, '.') {
        let tail = skip(rest, 1);
        let fraction = count_leading(tail, CharClass::Digit);
        proof {
            assert(rest@.skip(1 + fraction as int) =~= tail@.skip(fraction as int));
        }
        (whole > 0 || fraction > 0) && exponent(skip(tail, fraction))
    } else {
        whole > 0 && exponent(rest)
    }
}

/// Whether the standard library reads `s` as a floating-point number.
pub fn looks_like_float(s: &[char]) -> (yes: bool)
    ensures
        yes == is_float(s@),
{
    let t = skip_number_sign(s);
    let name = chars_of(uppercase_string(t).as_str());
    same_as(name.as_slice(), "INF") || same_as(name.as_slice(), "INFINITY") || same_as(
        name.as_slice(),
        "NAN",
    ) || decimal_number(t)
}

fn looks_like_literal(text: &str) -> (yes: bool)
    ensures
        yes == is_literal(text@),
{
    let chars = chars_of(text);
    let t = trim(chars.as_slice());
    (first_is(t, '"') && last_is(t, '"')) || (first_is(t, '\'') && last_is(t, '\''))
        || looks_like_float(t) || looks_like_float(trim_end(t, CharClass::Comma))
}

fn row_may_strip(row: &PayloadRow) -> (yes: bool)
    ensures
        yes == may_strip(row@),
{
    row.bare && !blank(chars_of(row.text.as_str()).as_slice())
}

fn numbered_copy(rows: &[PayloadRow]) -> (yes: bool)
    ensures
        yes == is_numbered_copy(row_views(rows@)),
{
    let ghost all = row_views(rows@);
    let mut found = false;
    let mut i: usize = 0;
    while i < rows.len()
        invariant
            i <= rows.len(),
            all == row_views(rows@),
            forall|k: int|
                0 <= k < i && may_strip(#[trigger] all[k]) ==> unnumbered(all[k].text) is Some,
            found == exists|k: int|
                0 <= k < i && may_strip(#[trigger] all[k]) && !is_literal(
                    without_number(all[k].text),
                ),
        decreases rows.len() - i,
    {
        let row = &rows[i];
        proof {
            assert(all[i as int] == row@);
        }
        if row_may_strip(row) {
            match strip_one_leading_prefix(row.text.as_str()) {
                None => {
                    return false;
                },
                Some(rest) => {
                    if !looks_like_literal(rest.as_str()) {
                        found = true;
                    }
                },
            }
        }
        i += 1;
    }
    found
}

/// Strip copied line numbers where every bare row has one.
pub fn strip_bare_prefixes_if_uniform(rows: Vec<PayloadRow>) -> (out: Vec<PayloadRow>)
    ensures
        row_views(out@) == prefixes_stripped(row_views(rows@)),
{
    if !numbered_copy(rows.as_slice()) {
        return rows;
    }
    let ghost all = row_views(rows@);
    let mut out: Vec<PayloadRow> = Vec::new();
    let mut i: usize = 0;
    while i < rows.len()
        invariant
            i <= rows.len(),
            all == row_views(rows@),
            out@.len() == i,
            forall|k: int| 0 <= k < i ==> (#[trigger] out@[k])@ == strip_row(all[k]),
        decreases rows.len() - i,
    {
        let row = &rows[i];
        proof {
            assert(all[i as int] == row@);
        }
        let mut text = row.text.clone();
        if row_may_strip(row) {
            if let Some(rest) = strip_one_leading_prefix(row.text.as_str()) {
                text = rest;
            }
        }
        out.push(
            PayloadRow { text, line_num: row.line_num, bare: row.bare, minus: row.minus },
        );
        i += 1;
    }
    proof {
        assert(row_views(out@) =~= prefixes_stripped(all));
    }
    out
}

/// The texts of the rows.
pub fn texts_of(rows: &[PayloadRow]) -> (out: Vec<String>)
    ensures
        strs(out@) == row_texts(row_views(rows@)),
        out@.len() == rows@.len(),
{
    let mut out: Vec<String> = Vec::new();
    let mut i: usize = 0;
    while i < rows.len()
        invariant
            i <= rows.len(),
            out@.len() == i,
            forall|k: int| 0 <= k < i ==> (#[trigger] out@[k])@ == rows@[k].text@,
        decreases rows.len() - i,
    {
        out.push(rows[i].text.clone());
        i += 1;
    }
    proof {
        assert(strs(out@) =~= row_texts(row_views(rows@)));
    }
    out
}

// ---------------------------------------------------------------------------------------------
// Laws

/// Rows that are all marked with `+` are final content: nothing is dropped, refused or stripped.
pub proof fn law_marked_rows_are_kept(rows: Seq<RowView>)
    requires
        forall|i: int| 0 <= i < rows.len() ==> !(#[trigger] rows[i]).bare && !rows[i].minus,
    ensures
        minus_resolved(rows) == Ok::<Seq<RowView>, Seq<char>>(rows),
        prefixes_stripped(rows) == rows,
{
    lemma_no_first_minus(rows);
    if is_numbered_copy(rows) {
        let i = choose|i: int|
            0 <= i < rows.len() && may_strip(#[trigger] rows[i]) && !is_literal(
                without_number(rows[i].text),
            );
        assert(!rows[i].bare);
    }
}

proof fn lemma_no_first_minus(rows: Seq<RowView>)
    requires
        forall|i: int| 0 <= i < rows.len() ==> !(#[trigger] rows[i]).minus,
    ensures
        first_minus(rows) is None,
    decreases rows.len(),
{
    if rows.len() > 0 {
        assert forall|i: int| 0 <= i < rows.drop_last().len() implies !(
        #[trigger] rows.drop_last()[i]).minus by {
            assert(rows.drop_last()[i] == rows[i]);
        }
        lemma_no_first_minus(rows.drop_last());
        assert(rows.last() == rows[rows.len() - 1]);
    }
}

} // verus!
