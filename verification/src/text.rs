//! Character-level text operations and their mathematical models.
//!
//! A text is modelled as a `Seq<char>`. The executable functions work on `&[char]` slices, so that
//! every cut falls on a character and none is ever made inside one.

use vstd::prelude::*;
use vstd::slice::slice_subrange;
use vstd::string::StrSliceExecFns;

verus! {

/// `String::push` of the standard library: the character is appended to the string.
pub assume_specification[ String::push ](s: &mut String, c: char)
    ensures
        final(s)@ == old(s)@.push(c),
;

/// The sets of characters that the scanners skip over, trim or collect.
#[derive(Clone, Copy)]
pub enum CharClass {
    /// Unicode `White_Space`.
    White,
    /// Space and tab.
    Blank,
    /// Space, tab and carriage return: what a line may end in without changing its tag.
    LinePad,
    /// Carriage return.
    Return,
    /// Line feed and carriage return.
    LineBreak,
    /// ASCII digits.
    Digit,
    /// ASCII hexadecimal digits.
    Hex,
    /// What may stand between the two numbers of a range.
    Separator,
    /// What a register name is made of.
    Name,
    /// The comma.
    Comma,
    /// The number sign.
    Hash,
    /// Everything but the number sign.
    NotHash,
    /// Everything but the line feed.
    InLine,
}

pub open spec fn is_white(c: char) -> bool {
    ||| '\u{9}' <= c <= '\u{d}'
    ||| c == ' '
    ||| c == '\u{85}'
    ||| c == '\u{a0}'
    ||| c == '\u{1680}'
    ||| '\u{2000}' <= c <= '\u{200a}'
    ||| c == '\u{2028}'
    ||| c == '\u{2029}'
    ||| c == '\u{202f}'
    ||| c == '\u{205f}'
    ||| c == '\u{3000}'
}

pub open spec fn is_digit(c: char) -> bool {
    '0' <= c <= '9'
}

pub open spec fn is_hex(c: char) -> bool {
    is_digit(c) || 'a' <= c <= 'f' || 'A' <= c <= 'F'
}

pub open spec fn is_letter(c: char) -> bool {
    'a' <= c <= 'z' || 'A' <= c <= 'Z'
}

/// Whether `c` belongs to the class `k`.
pub open spec fn class_has(k: CharClass, c: char) -> bool {
    match k {
        CharClass::White => is_white(c),
        CharClass::Blank => c == ' ' || c == '\t',
        CharClass::LinePad => c == ' ' || c == '\t' || c == '\r',
        CharClass::Return => c == '\r',
        CharClass::LineBreak => c == '\n' || c == '\r',
        CharClass::Digit => is_digit(c),
        CharClass::Hex => is_hex(c),
        CharClass::Separator => c == '-' || c == '.' || c == '=' || c == ' ' || c == '\t' || c
            == '\u{2026}',
        CharClass::Name => is_letter(c) || is_digit(c) || c == '_' || c == '-',
        CharClass::Comma => c == ',',
        CharClass::Hash => c == '#',
        CharClass::NotHash => c != '#',
        CharClass::InLine => c != '\n',
    }
}

/// An ASCII letter in upper case; any other character as it is.
pub open spec fn upper(c: char) -> char {
    if 'a' <= c <= 'z' {
        (c as u8 - 32) as char
    } else {
        c
    }
}

/// `s` with its ASCII letters in upper case.
pub open spec fn uppercase(s: Seq<char>) -> Seq<char> {
    Seq::new(s.len(), |i: int| upper(s[i]))
}

/// How many characters at the front of `s` belong to `k`.
pub open spec fn leading(s: Seq<char>, k: CharClass) -> nat
    decreases s.len(),
{
    if s.len() > 0 && class_has(k, s[0]) {
        1 + leading(s.skip(1), k)
    } else {
        0
    }
}

/// How many characters at the back of `s` belong to `k`.
pub open spec fn trailing(s: Seq<char>, k: CharClass) -> nat
    decreases s.len(),
{
    if s.len() > 0 && class_has(k, s.last()) {
        1 + trailing(s.drop_last(), k)
    } else {
        0
    }
}

/// `s` without the characters of `k` at its front.
pub open spec fn trimmed_start(s: Seq<char>, k: CharClass) -> Seq<char> {
    s.skip(leading(s, k) as int)
}

/// `s` without the characters of `k` at its back.
pub open spec fn trimmed_end(s: Seq<char>, k: CharClass) -> Seq<char> {
    s.take(s.len() - trailing(s, k))
}

/// `s` without white space at either end.
pub open spec fn trimmed(s: Seq<char>) -> Seq<char> {
    trimmed_end(trimmed_start(s, CharClass::White), CharClass::White)
}

/// Nothing but white space, or nothing at all.
pub open spec fn is_blank(s: Seq<char>) -> bool {
    forall|i: int| 0 <= i < s.len() ==> is_white(#[trigger] s[i])
}

pub open spec fn all_of(s: Seq<char>, k: CharClass) -> bool {
    forall|i: int| 0 <= i < s.len() ==> class_has(k, #[trigger] s[i])
}

pub open spec fn starts_with_char(s: Seq<char>, c: char) -> bool {
    s.len() > 0 && s[0] == c
}

pub open spec fn ends_with_char(s: Seq<char>, c: char) -> bool {
    s.len() > 0 && s.last() == c
}

/// The pieces of `s` between its line feeds: one more than there are line feeds.
pub open spec fn lines_of(s: Seq<char>) -> Seq<Seq<char>>
    decreases s.len(),
{
    let n = leading(s, CharClass::InLine);
    if n < s.len() {
        seq![s.take(n as int)] + lines_of(s.skip(n as int + 1))
    } else {
        seq![s]
    }
}

/// The texts one after the other, with `sep` between each and the next.
pub open spec fn join_with(parts: Seq<Seq<char>>, sep: Seq<char>) -> Seq<char>
    decreases parts.len(),
{
    if parts.len() == 0 {
        seq![]
    } else if parts.len() == 1 {
        parts[0]
    } else {
        join_with(parts.drop_last(), sep) + sep + parts.last()
    }
}

pub open spec fn newline() -> Seq<char> {
    seq!['\n']
}

/// Lines put back together with line feeds.
pub open spec fn join_lines(parts: Seq<Seq<char>>) -> Seq<char> {
    join_with(parts, newline())
}

/// The texts of a sequence of strings.
pub open spec fn strs(v: Seq<String>) -> Seq<Seq<char>> {
    Seq::new(v.len(), |i: int| v[i]@)
}

/// How many different lines there are among `lines`.
pub open spec fn distinct_count(lines: Seq<Seq<char>>) -> nat {
    lines.to_set().len()
}

pub open spec fn digit_char(d: nat) -> char {
    if d == 0 {
        '0'
    } else if d == 1 {
        '1'
    } else if d == 2 {
        '2'
    } else if d == 3 {
        '3'
    } else if d == 4 {
        '4'
    } else if d == 5 {
        '5'
    } else if d == 6 {
        '6'
    } else if d == 7 {
        '7'
    } else if d == 8 {
        '8'
    } else if d == 9 {
        '9'
    } else if d == 10 {
        'A'
    } else if d == 11 {
        'B'
    } else if d == 12 {
        'C'
    } else if d == 13 {
        'D'
    } else if d == 14 {
        'E'
    } else {
        'F'
    }
}

/// `n` in decimal, without leading zeros.
pub open spec fn decimal(n: nat) -> Seq<char>
    decreases n,
{
    if n < 10 {
        seq![digit_char(n)]
    } else {
        decimal(n / 10).push(digit_char(n % 10))
    }
}

/// The value of one decimal digit.
pub open spec fn digit_value(c: char) -> nat {
    (c as int - '0' as int) as nat
}

/// The number that a run of decimal digits stands for.
pub open spec fn digits_value(s: Seq<char>) -> nat
    decreases s.len(),
{
    if s.len() == 0 {
        0
    } else {
        digits_value(s.drop_last()) * 10 + digit_value(s.last())
    }
}

/// The length of `s` in UTF-8.
pub open spec fn byte_len(s: Seq<char>) -> nat {
    vstd::utf8::encode_utf8(s).len()
}

/// The longest prefix of `s` that takes no more than `max` bytes in UTF-8.
pub open spec fn byte_prefix(s: Seq<char>, max: nat) -> Seq<char>
    decreases s.len(),
{
    if byte_len(s) <= max || s.len() == 0 {
        s
    } else {
        byte_prefix(s.drop_last(), max)
    }
}

// ---------------------------------------------------------------------------------------------
// Facts

proof fn lemma_encode_concat(a: Seq<char>, b: Seq<char>)
    ensures
        vstd::utf8::encode_utf8(a + b) == vstd::utf8::encode_utf8(a) + vstd::utf8::encode_utf8(b),
    decreases a.len(),
{
    if a.len() == 0 {
        assert(a + b =~= b);
        assert(vstd::utf8::encode_utf8(a) + vstd::utf8::encode_utf8(b)
            =~= vstd::utf8::encode_utf8(b));
    } else {
        lemma_encode_concat(a.drop_first(), b);
        assert((a + b).drop_first() =~= a.drop_first() + b);
        assert(vstd::utf8::encode_utf8(a + b) =~= vstd::utf8::encode_utf8(a)
            + vstd::utf8::encode_utf8(b));
    }
}

pub proof fn lemma_byte_len_concat(a: Seq<char>, b: Seq<char>)
    ensures
        byte_len(a + b) == byte_len(a) + byte_len(b),
{
    lemma_encode_concat(a, b);
}

/// A prefix of a prefix that is already too long is not reached.
proof fn lemma_byte_prefix_is(s: Seq<char>, max: nat, n: int)
    requires
        0 <= n < s.len(),
        byte_len(s.take(n)) <= max,
        byte_len(s.take(n + 1)) > max,
    ensures
        byte_prefix(s, max) == s.take(n),
    decreases s.len(),
{
    assert(s =~= s.take(n + 1) + s.skip(n + 1));
    lemma_byte_len_concat(s.take(n + 1), s.skip(n + 1));
    let front = s.drop_last();
    if n == s.len() - 1 {
        assert(front =~= s.take(n));
        reveal_with_fuel(byte_prefix, 2);
    } else {
        assert(front.take(n) =~= s.take(n));
        assert(front.take(n + 1) =~= s.take(n + 1));
        lemma_byte_prefix_is(front, max, n);
    }
}

pub proof fn lemma_leading(s: Seq<char>, k: CharClass)
    ensures
        leading(s, k) <= s.len(),
        forall|i: int| 0 <= i < leading(s, k) ==> class_has(k, #[trigger] s[i]),
        leading(s, k) < s.len() ==> !class_has(k, s[leading(s, k) as int]),
    decreases s.len(),
{
    if s.len() > 0 && class_has(k, s[0]) {
        let t = s.skip(1);
        lemma_leading(t, k);
        assert forall|i: int| 0 <= i < leading(s, k) implies class_has(k, #[trigger] s[i]) by {
            if i > 0 {
                assert(s[i] == t[i - 1]);
            }
        }
        if leading(s, k) < s.len() {
            assert(s[leading(s, k) as int] == t[leading(t, k) as int]);
        }
    }
}

/// `leading` is the one length that the facts of `lemma_leading` allow.
pub proof fn lemma_leading_is(s: Seq<char>, k: CharClass, n: nat)
    requires
        n <= s.len(),
        forall|i: int| 0 <= i < n ==> class_has(k, #[trigger] s[i]),
        n < s.len() ==> !class_has(k, s[n as int]),
    ensures
        leading(s, k) == n,
{
    lemma_leading(s, k);
    let m = leading(s, k);
    if m < n {
        assert(class_has(k, s[m as int]));
    } else if n < m {
        assert(class_has(k, s[n as int]));
    }
}

pub proof fn lemma_trailing(s: Seq<char>, k: CharClass)
    ensures
        trailing(s, k) <= s.len(),
        forall|i: int| s.len() - trailing(s, k) <= i < s.len() ==> class_has(k, #[trigger] s[i]),
        trailing(s, k) < s.len() ==> !class_has(k, s[s.len() - trailing(s, k) - 1]),
    decreases s.len(),
{
    if s.len() > 0 && class_has(k, s.last()) {
        let t = s.drop_last();
        lemma_trailing(t, k);
        assert forall|i: int| s.len() - trailing(s, k) <= i < s.len() implies class_has(
            k,
            #[trigger] s[i],
        ) by {
            if i < s.len() - 1 {
                assert(s[i] == t[i]);
            }
        }
    }
}

pub proof fn lemma_trailing_is(s: Seq<char>, k: CharClass, n: nat)
    requires
        n <= s.len(),
        forall|i: int| s.len() - n <= i < s.len() ==> class_has(k, #[trigger] s[i]),
        n < s.len() ==> !class_has(k, s[s.len() - n - 1]),
    ensures
        trailing(s, k) == n,
{
    lemma_trailing(s, k);
    let m = trailing(s, k);
    if m < n {
        assert(class_has(k, s[s.len() - m - 1]));
    } else if n < m {
        assert(class_has(k, s[s.len() - n - 1]));
    }
}

pub proof fn lemma_lines_nonempty(s: Seq<char>)
    ensures
        lines_of(s).len() >= 1,
{
}

/// No piece between line feeds holds one.
pub proof fn lemma_lines_in_line(s: Seq<char>)
    ensures
        forall|i: int| 0 <= i < lines_of(s).len() ==> all_of(#[trigger] lines_of(s)[i], CharClass::InLine),
    decreases s.len(),
{
    let k = CharClass::InLine;
    let n = leading(s, k);
    lemma_leading(s, k);
    if n < s.len() {
        let rest = s.skip(n as int + 1);
        lemma_lines_in_line(rest);
        assert forall|i: int| 0 <= i < lines_of(s).len() implies
            all_of(#[trigger] lines_of(s)[i], k) by {
            if i > 0 {
                assert(lines_of(s)[i] == lines_of(rest)[i - 1]);
            }
        }
    }
}

/// The pieces together are no longer than the whole, and no more than its characters and one.
pub proof fn lemma_lines_len(s: Seq<char>)
    ensures
        total_len(lines_of(s)) + lines_of(s).len() == s.len() + 1,
    decreases s.len(),
{
    let n = leading(s, CharClass::InLine);
    lemma_leading(s, CharClass::InLine);
    if n < s.len() {
        let rest = s.skip(n as int + 1);
        lemma_lines_len(rest);
        lemma_total_len_cons(s.take(n as int), lines_of(rest));
    } else {
        assert(seq![s].drop_last() =~= Seq::<Seq<char>>::empty());
        reveal_with_fuel(total_len, 2);
    }
}

/// The summed lengths of the parts.
pub open spec fn total_len(parts: Seq<Seq<char>>) -> nat
    decreases parts.len(),
{
    if parts.len() == 0 {
        0
    } else {
        total_len(parts.drop_last()) + parts.last().len()
    }
}

pub proof fn lemma_total_len_cons(first: Seq<char>, rest: Seq<Seq<char>>)
    ensures
        total_len(seq![first] + rest) == first.len() + total_len(rest),
    decreases rest.len(),
{
    let all = seq![first] + rest;
    if rest.len() == 0 {
        assert(all.drop_last() =~= Seq::<Seq<char>>::empty());
        assert(all.last() == first);
        reveal_with_fuel(total_len, 2);
    } else {
        assert(all.drop_last() =~= seq![first] + rest.drop_last());
        lemma_total_len_cons(first, rest.drop_last());
    }
}

pub proof fn lemma_total_len_take(parts: Seq<Seq<char>>, n: int)
    requires
        0 <= n < parts.len(),
    ensures
        total_len(parts.take(n + 1)) == total_len(parts.take(n)) + parts[n].len(),
        total_len(parts.take(n + 1)) <= total_len(parts),
    decreases parts.len(),
{
    assert(parts.take(n + 1).drop_last() =~= parts.take(n));
    if n + 1 == parts.len() {
        assert(parts.take(n + 1) =~= parts);
    } else {
        lemma_total_len_take(parts.drop_last(), n);
        assert(parts.drop_last().take(n + 1) =~= parts.take(n + 1));
    }
}

pub proof fn lemma_join_cons(first: Seq<char>, rest: Seq<Seq<char>>, sep: Seq<char>)
    requires
        rest.len() > 0,
    ensures
        join_with(seq![first] + rest, sep) == first + sep + join_with(rest, sep),
    decreases rest.len(),
{
    let all = seq![first] + rest;
    if rest.len() == 1 {
        assert(all.drop_last() =~= seq![first]);
        assert(all.last() == rest[0]);
        assert(join_with(seq![first], sep) == first);
        assert(join_with(rest, sep) == rest[0]);
    } else {
        assert(all.drop_last() =~= seq![first] + rest.drop_last());
        lemma_join_cons(first, rest.drop_last(), sep);
        assert(first + sep + join_with(rest.drop_last(), sep) + sep + rest.last() =~= first + sep
            + join_with(rest, sep));
    }
}

/// Splitting a text into lines and joining them again gives the text back.
pub proof fn law_join_of_lines(s: Seq<char>)
    ensures
        join_lines(lines_of(s)) == s,
    decreases s.len(),
{
    let n = leading(s, CharClass::InLine);
    lemma_leading(s, CharClass::InLine);
    if n < s.len() {
        let rest = s.skip(n as int + 1);
        law_join_of_lines(rest);
        lemma_lines_nonempty(rest);
        lemma_join_cons(s.take(n as int), lines_of(rest), newline());
        assert(s.take(n as int) + newline() + rest =~= s);
    } else {
        assert(seq![s][0] == s);
    }
}

/// Lines that hold no line feed come back unchanged when their join is split again.
pub proof fn law_lines_of_join(parts: Seq<Seq<char>>)
    requires
        parts.len() > 0,
        forall|i: int| 0 <= i < parts.len() ==> all_of(#[trigger] parts[i], CharClass::InLine),
    ensures
        lines_of(join_lines(parts)) == parts,
    decreases parts.len(),
{
    let k = CharClass::InLine;
    let s = join_lines(parts);
    if parts.len() == 1 {
        lemma_leading_is(s, k, s.len());
        assert(lines_of(s) =~= parts);
    } else {
        let rest = parts.skip(1);
        assert(parts =~= seq![parts[0]] + rest);
        lemma_join_cons(parts[0], rest, newline());
        let n = parts[0].len();
        assert(s == parts[0] + newline() + join_lines(rest));
        assert forall|i: int| 0 <= i < n implies class_has(k, #[trigger] s[i]) by {
            assert(s[i] == parts[0][i]);
        }
        assert(s[n as int] == '\n');
        lemma_leading_is(s, k, n);
        assert(s.take(n as int) =~= parts[0]);
        assert(s.skip(n as int + 1) =~= join_lines(rest));
        assert forall|i: int| 0 <= i < rest.len() implies all_of(#[trigger] rest[i], k) by {
            assert(rest[i] == parts[i + 1]);
        }
        law_lines_of_join(rest);
        assert(lines_of(s) =~= parts);
    }
}

pub proof fn lemma_digit_char(d: nat)
    requires
        d < 10,
    ensures
        is_digit(digit_char(d)),
        digit_value(digit_char(d)) == d,
{
}

/// Reading a number back from its decimal digits gives the number.
pub proof fn law_decimal_round_trip(n: nat)
    ensures
        digits_value(decimal(n)) == n,
        decimal(n).len() > 0,
        all_of(decimal(n), CharClass::Digit),
    decreases n,
{
    if n < 10 {
        lemma_digit_char(n);
        assert(seq![digit_char(n)].drop_last() =~= Seq::<char>::empty());
        reveal_with_fuel(digits_value, 2);
    } else {
        law_decimal_round_trip(n / 10);
        lemma_digit_char(n % 10);
        let s = decimal(n / 10).push(digit_char(n % 10));
        assert(s.drop_last() =~= decimal(n / 10));
        assert forall|i: int| 0 <= i < s.len() implies
            class_has(CharClass::Digit, #[trigger] s[i]) by {
            if i < s.len() - 1 {
                assert(s[i] == decimal(n / 10)[i]);
            }
        }
    }
}

pub proof fn lemma_digits_value_prefix(s: Seq<char>, i: int)
    requires
        0 <= i <= s.len(),
    ensures
        digits_value(s.take(i)) <= digits_value(s),
    decreases s.len(),
{
    if i == s.len() {
        assert(s.take(i) =~= s);
    } else {
        lemma_digits_value_prefix(s.drop_last(), i);
        assert(s.drop_last().take(i) =~= s.take(i));
    }
}

// ---------------------------------------------------------------------------------------------
// Executable functions

pub fn in_class(k: CharClass, c: char) -> (yes: bool)
    ensures
        yes == class_has(k, c),
{
    match k {
        CharClass::White => ('\u{9}' <= c && c <= '\u{d}') || c == ' ' || c == '\u{85}' || c
            == '\u{a0}' || c == '\u{1680}' || ('\u{2000}' <= c && c <= '\u{200a}') || c
            == '\u{2028}' || c == '\u{2029}' || c == '\u{202f}' || c == '\u{205f}' || c
            == '\u{3000}',
        CharClass::Blank => c == ' ' || c == '\t',
        CharClass::LinePad => c == ' ' || c == '\t' || c == '\r',
        CharClass::Return => c == '\r',
        CharClass::LineBreak => c == '\n' || c == '\r',
        CharClass::Digit => '0' <= c && c <= '9',
        CharClass::Hex => ('0' <= c && c <= '9') || ('a' <= c && c <= 'f') || ('A' <= c && c
            <= 'F'),
        CharClass::Separator => c == '-' || c == '.' || c == '=' || c == ' ' || c == '\t' || c
            == '\u{2026}',
        CharClass::Name => ('a' <= c && c <= 'z') || ('A' <= c && c <= 'Z') || ('0' <= c && c
            <= '9') || c == '_' || c == '-',
        CharClass::Comma => c == ',',
        CharClass::Hash => c == '#',
        CharClass::NotHash => c != '#',
        CharClass::InLine => c != '\n',
    }
}

pub fn to_upper(c: char) -> (r: char)
    ensures
        r == upper(c),
{
    if 'a' <= c && c <= 'z' {
        (c as u8 - 32) as char
    } else {
        c
    }
}

/// The characters with ASCII letters in upper case.
pub fn uppercase_string(s: &[char]) -> (out: String)
    ensures
        out@ == uppercase(s@),
{
    let mut out = String::new();
    let mut i: usize = 0;
    while i < s.len()
        invariant
            i <= s.len(),
            out@ == uppercase(s@).take(i as int),
        decreases s.len() - i,
    {
        out.push(to_upper(s[i]));
        i += 1;
    }
    proof {
        assert(uppercase(s@).take(i as int) =~= uppercase(s@));
    }
    out
}

/// The characters of a string.
pub fn chars_of(s: &str) -> (out: Vec<char>)
    ensures
        out@ == s@,
{
    let mut out: Vec<char> = Vec::new();
    for c in it: s.chars()
        invariant
            out@ == it.seq().take(it.index()),
            it.seq() == s@,
    {
        out.push(c);
    }
    out
}

/// The string that is made of these characters.
pub fn string_of(s: &[char]) -> (out: String)
    ensures
        out@ == s@,
{
    let mut out = String::new();
    push_chars(&mut out, s);
    out
}

/// Append characters to a string.
pub fn push_chars(out: &mut String, s: &[char])
    ensures
        final(out)@ == old(out)@ + s@,
{
    let mut i: usize = 0;
    while i < s.len()
        invariant
            i <= s.len(),
            out@ == old(out)@ + s@.take(i as int),
        decreases s.len() - i,
    {
        out.push(s[i]);
        i += 1;
    }
    proof {
        assert(s@.take(i as int) =~= s@);
    }
}

/// The characters from `i` up to but not including `j`.
pub fn part(s: &[char], i: usize, j: usize) -> (r: &[char])
    requires
        i <= j <= s@.len(),
    ensures
        r@ == s@.subrange(i as int, j as int),
{
    slice_subrange(s, i, j)
}

/// The characters from `n` on.
pub fn skip(s: &[char], n: usize) -> (r: &[char])
    requires
        n <= s@.len(),
    ensures
        r@ == s@.skip(n as int),
{
    slice_subrange(s, n, s.len())
}

/// The first `n` characters.
pub fn take(s: &[char], n: usize) -> (r: &[char])
    requires
        n <= s@.len(),
    ensures
        r@ == s@.take(n as int),
{
    slice_subrange(s, 0, n)
}

pub fn count_leading(s: &[char], k: CharClass) -> (n: usize)
    ensures
        n == leading(s@, k),
        n <= s@.len(),
{
    let mut n: usize = 0;
    while n < s.len() && in_class(k, s[n])
        invariant
            n <= s@.len(),
            forall|i: int| 0 <= i < n ==> class_has(k, #[trigger] s@[i]),
        decreases s.len() - n,
    {
        n += 1;
    }
    proof {
        lemma_leading_is(s@, k, n as nat);
    }
    n
}

pub fn count_trailing(s: &[char], k: CharClass) -> (n: usize)
    ensures
        n == trailing(s@, k),
        n <= s@.len(),
{
    let mut n: usize = 0;
    while n < s.len() && in_class(k, s[s.len() - 1 - n])
        invariant
            n <= s@.len(),
            forall|i: int| s@.len() - n <= i < s@.len() ==> class_has(k, #[trigger] s@[i]),
        decreases s.len() - n,
    {
        n += 1;
    }
    proof {
        lemma_trailing_is(s@, k, n as nat);
    }
    n
}

pub fn trim_start(s: &[char], k: CharClass) -> (r: &[char])
    ensures
        r@ == trimmed_start(s@, k),
        r@.len() <= s@.len(),
{
    let n = count_leading(s, k);
    skip(s, n)
}

pub fn trim_end(s: &[char], k: CharClass) -> (r: &[char])
    ensures
        r@ == trimmed_end(s@, k),
        r@.len() <= s@.len(),
{
    let n = count_trailing(s, k);
    take(s, s.len() - n)
}

pub fn trim(s: &[char]) -> (r: &[char])
    ensures
        r@ == trimmed(s@),
        r@.len() <= s@.len(),
{
    trim_end(trim_start(s, CharClass::White), CharClass::White)
}

pub fn blank(s: &[char]) -> (yes: bool)
    ensures
        yes == is_blank(s@),
{
    proof {
        lemma_leading(s@, CharClass::White);
    }
    let n = count_leading(s, CharClass::White);
    n == s.len()
}

pub fn all_in_class(s: &[char], k: CharClass) -> (yes: bool)
    ensures
        yes == all_of(s@, k),
{
    proof {
        lemma_leading(s@, k);
    }
    let n = count_leading(s, k);
    n == s.len()
}

pub fn first_is(s: &[char], c: char) -> (yes: bool)
    ensures
        yes == starts_with_char(s@, c),
{
    s.len() > 0 && s[0] == c
}

pub fn last_is(s: &[char], c: char) -> (yes: bool)
    ensures
        yes == ends_with_char(s@, c),
{
    s.len() > 0 && s[s.len() - 1] == c
}

/// Whether `s` begins with the characters of `lit`.
pub fn starts_with(s: &[char], lit: &str) -> (yes: bool)
    ensures
        yes == lit@.is_prefix_of(s@),
{
    let mut i: usize = 0;
    for c in it: lit.chars()
        invariant
            it.seq() == lit@,
            i == it.index(),
            i <= s.len(),
            lit@.take(i as int) =~= s@.take(i as int),
    {
        if i >= s.len() || s[i] != c {
            return false;
        }
        i += 1;
    }
    true
}

/// Whether `s` ends with the characters of `lit`.
pub fn ends_with(s: &[char], lit: &str) -> (yes: bool)
    ensures
        yes == lit@.is_suffix_of(s@),
{
    let n = lit.unicode_len();
    if n > s.len() {
        return false;
    }
    proof {
        assert(s@.skip(s@.len() - n) =~= s@.subrange(s@.len() - n, s@.len() as int));
    }
    same_as(skip(s, s.len() - n), lit)
}

/// Whether `s` is made of the characters of `lit`.
pub fn same_as(s: &[char], lit: &str) -> (yes: bool)
    ensures
        yes == (s@ == lit@),
{
    let mut i: usize = 0;
    for c in it: lit.chars()
        invariant
            it.seq() == lit@,
            i == it.index(),
            i <= s.len(),
            lit@.take(i as int) =~= s@.take(i as int),
    {
        if i >= s.len() || s[i] != c {
            return false;
        }
        i += 1;
    }
    proof {
        assert(lit@.take(i as int) =~= lit@);
        assert(s@.take(s@.len() as int) =~= s@);
    }
    i == s.len()
}

/// What follows `lit` at the front of `s`.
pub fn strip_prefix<'a>(s: &'a [char], lit: &str) -> (r: Option<&'a [char]>)
    ensures
        match r {
            Some(rest) => lit@.is_prefix_of(s@) && rest@ == s@.skip(lit@.len() as int),
            None => !lit@.is_prefix_of(s@),
        },
{
    let mut i: usize = 0;
    for c in it: lit.chars()
        invariant
            it.seq() == lit@,
            i == it.index(),
            i <= s.len(),
            lit@.take(i as int) =~= s@.take(i as int),
    {
        if i >= s.len() || s[i] != c {
            return None;
        }
        i += 1;
    }
    Some(skip(s, i))
}

pub fn same_chars(a: &[char], b: &[char]) -> (yes: bool)
    ensures
        yes == (a@ == b@),
{
    if a.len() != b.len() {
        return false;
    }
    let mut i: usize = 0;
    while i < a.len()
        invariant
            i <= a.len(),
            a.len() == b.len(),
            forall|j: int| 0 <= j < i ==> a@[j] == b@[j],
        decreases a.len() - i,
    {
        if a[i] != b[i] {
            return false;
        }
        i += 1;
    }
    proof {
        assert(a@ =~= b@);
    }
    true
}

/// How many bytes a character takes in UTF-8.
fn char_width(c: char) -> (n: usize)
    ensures
        n == byte_len(seq![c]),
        1 <= n <= 4,
{
    proof {
        vstd::utf8::char_is_scalar(c);
        assert(seq![c].drop_first() =~= seq![]);
        reveal_with_fuel(vstd::utf8::encode_utf8, 2);
        assert(vstd::utf8::encode_utf8(seq![c]) =~= vstd::utf8::encode_scalar(c as u32));
    }
    let v = c as u32;
    if v <= 0x7f {
        1
    } else if v <= 0x7ff {
        2
    } else if v <= 0xffff {
        3
    } else {
        4
    }
}

/// The longest prefix that takes no more than `max` bytes.
pub fn take_bytes(s: &[char], max: usize) -> (r: &[char])
    ensures
        r@ == byte_prefix(s@, max as nat),
{
    let mut n: usize = 0;
    let mut bytes: usize = 0;
    proof {
        assert(s@.take(0) =~= seq![]);
    }
    while n < s.len()
        invariant
            n <= s.len(),
            bytes <= max,
            bytes == byte_len(s@.take(n as int)),
        decreases s.len() - n,
    {
        let width = char_width(s[n]);
        proof {
            assert(s@.take(n + 1) =~= s@.take(n as int) + seq![s@[n as int]]);
            lemma_byte_len_concat(s@.take(n as int), seq![s@[n as int]]);
        }
        if width > max - bytes {
            proof {
                lemma_byte_prefix_is(s@, max as nat, n as int);
            }
            return take(s, n);
        }
        bytes += width;
        n += 1;
    }
    proof {
        assert(s@.take(n as int) =~= s@);
    }
    s
}

/// Whether two strings hold the same characters.
pub fn same_text(a: &str, b: &str) -> (yes: bool)
    ensures
        yes == (a@ == b@),
{
    let bytes_a = a.as_bytes();
    let bytes_b = b.as_bytes();
    proof {
        vstd::utf8::encode_utf8_decode_utf8(a@);
        vstd::utf8::encode_utf8_decode_utf8(b@);
    }
    if bytes_a.len() != bytes_b.len() {
        return false;
    }
    let mut i: usize = 0;
    while i < bytes_a.len()
        invariant
            i <= bytes_a.len(),
            bytes_a.len() == bytes_b.len(),
            forall|j: int| 0 <= j < i ==> bytes_a@[j] == bytes_b@[j],
            bytes_a@ == vstd::utf8::encode_utf8(a@),
            bytes_b@ == vstd::utf8::encode_utf8(b@),
        decreases bytes_a.len() - i,
    {
        if bytes_a[i] != bytes_b[i] {
            return false;
        }
        i += 1;
    }
    proof {
        assert(bytes_a@ =~= bytes_b@);
    }
    true
}

/// The bounds of each line in a text.
pub open spec fn spans_of(spans: Seq<(usize, usize)>, s: Seq<char>, lines: Seq<Seq<char>>) -> bool {
    &&& spans.len() == lines.len()
    &&& forall|i: int|
        #![trigger spans[i]]
        0 <= i < spans.len() ==> 0 <= spans[i].0 <= spans[i].1 <= s.len() && lines[i]
            == s.subrange(spans[i].0 as int, spans[i].1 as int)
}

pub fn line_spans(s: &[char]) -> (spans: Vec<(usize, usize)>)
    ensures
        spans_of(spans@, s@, lines_of(s@)),
        spans@.len() >= 1,
{
    let mut spans: Vec<(usize, usize)> = Vec::new();
    let mut start: usize = 0;
    let mut i: usize = 0;
    let ghost mut done: Seq<Seq<char>> = seq![];
    proof {
        assert(s@.skip(0) =~= s@);
        assert(done + lines_of(s@) =~= lines_of(s@));
    }
    while i < s.len()
        invariant
            start <= i <= s.len(),
            spans_of(spans@, s@, done),
            lines_of(s@) == done + lines_of(s@.skip(start as int)),
            forall|j: int| start <= j < i ==> s@[j] != '\n',
        decreases s.len() - i,
    {
        if s[i] == '\n' {
            proof {
                let rest = s@.skip(start as int);
                let n = (i - start) as nat;
                assert forall|j: int| 0 <= j < n implies class_has(
                    CharClass::InLine,
                    #[trigger] rest[j],
                ) by {
                    assert(rest[j] == s@[start + j]);
                }
                lemma_leading_is(rest, CharClass::InLine, n);
                assert(rest.take(n as int) =~= s@.subrange(start as int, i as int));
                assert(rest.skip(n as int + 1) =~= s@.skip(i + 1));
                let next = done.push(s@.subrange(start as int, i as int));
                assert(done + lines_of(rest) =~= next + lines_of(s@.skip(i + 1)));
                done = next;
            }
            spans.push((start, i));
            start = i + 1;
        }
        i += 1;
    }
    proof {
        let rest = s@.skip(start as int);
        assert forall|j: int| 0 <= j < rest.len() implies class_has(
            CharClass::InLine,
            #[trigger] rest[j],
        ) by {
            assert(rest[j] == s@[start + j]);
        }
        lemma_leading_is(rest, CharClass::InLine, rest.len());
        assert(rest =~= s@.subrange(start as int, s@.len() as int));
        assert(done + lines_of(rest) =~= done.push(rest));
    }
    spans.push((start, s.len()));
    spans
}

/// The lines of a text as strings.
pub fn split_lines(s: &[char]) -> (out: Vec<String>)
    ensures
        strs(out@) == lines_of(s@),
        out@.len() >= 1,
{
    let spans = line_spans(s);
    let mut out: Vec<String> = Vec::new();
    let mut i: usize = 0;
    while i < spans.len()
        invariant
            i <= spans.len(),
            out@.len() == i,
            spans_of(spans@, s@, lines_of(s@)),
            forall|j: int| 0 <= j < i ==> (#[trigger] out@[j])@ == lines_of(s@)[j],
        decreases spans.len() - i,
    {
        let span = spans[i];
        out.push(string_of(part(s, span.0, span.1)));
        i += 1;
    }
    proof {
        assert(strs(out@) =~= lines_of(s@));
    }
    out
}

/// The strings with `sep` between each and the next.
pub fn join_strings(parts: &[String], sep: &str) -> (out: String)
    ensures
        out@ == join_with(strs(parts@), sep@),
{
    let mut out = String::new();
    let mut i: usize = 0;
    while i < parts.len()
        invariant
            i <= parts.len(),
            out@ == join_with(strs(parts@).take(i as int), sep@),
        decreases parts.len() - i,
    {
        if i > 0 {
            out.append(sep);
        }
        out.append(parts[i].as_str());
        proof {
            let now = strs(parts@).take(i + 1);
            assert(now.drop_last() =~= strs(parts@).take(i as int));
            assert(now.last() == parts@[i as int]@);
            if i == 0 {
                assert(out@ =~= now[0]);
            }
        }
        i += 1;
    }
    proof {
        assert(strs(parts@).take(i as int) =~= strs(parts@));
    }
    out
}

/// The strings with a line feed between each and the next.
pub fn join_text(parts: &[String]) -> (out: String)
    ensures
        out@ == join_lines(strs(parts@)),
{
    proof {
        reveal_strlit("\n");
        assert("\n"@ =~= newline());
    }
    join_strings(parts, "\n")
}

fn digit(d: u64) -> (c: char)
    requires
        d < 16,
    ensures
        c == digit_char(d as nat),
{
    match d {
        0 => '0',
        1 => '1',
        2 => '2',
        3 => '3',
        4 => '4',
        5 => '5',
        6 => '6',
        7 => '7',
        8 => '8',
        9 => '9',
        10 => 'A',
        11 => 'B',
        12 => 'C',
        13 => 'D',
        14 => 'E',
        _ => 'F',
    }
}

/// Append the upper-case hexadecimal digit of a value below sixteen.
pub fn push_hex_digit(out: &mut String, d: u32)
    requires
        d < 16,
    ensures
        final(out)@ == old(out)@.push(digit_char(d as nat)),
{
    out.push(digit(d as u64));
}

/// Append a number in decimal.
pub fn push_number(out: &mut String, n: u128)
    ensures
        final(out)@ == old(out)@ + decimal(n as nat),
    decreases n,
{
    if n < 10 {
        out.push(digit(n as u64));
    } else {
        push_number(out, n / 10);
        out.push(digit((n % 10) as u64));
        proof {
            assert(old(out)@ + decimal((n / 10) as nat).push(digit_char((n % 10) as nat)) =~= (
            old(out)@ + decimal((n / 10) as nat)).push(digit_char((n % 10) as nat)));
        }
    }
}

/// Append a line number or a count in decimal.
pub fn push_decimal(out: &mut String, n: usize)
    ensures
        final(out)@ == old(out)@ + decimal(n as nat),
{
    push_number(out, n as u128);
}

/// The words that begin a message about line `n` of a patch.
pub open spec fn at_line(n: nat) -> Seq<char> {
    "line "@ + decimal(n) + ": "@
}

pub fn line_message(n: usize) -> (out: String)
    ensures
        out@ == at_line(n as nat),
{
    let mut out = "line ".to_owned();
    push_decimal(&mut out, n);
    out.append(": ");
    out
}

/// The number that a run of digits stands for, where a `u64` can hold it.
pub fn parse_digits(s: &[char]) -> (r: Option<u64>)
    requires
        all_of(s@, CharClass::Digit),
    ensures
        match r {
            Some(n) => n == digits_value(s@),
            None => digits_value(s@) > u64::MAX,
        },
{
    let mut n: u64 = 0;
    let mut i: usize = 0;
    while i < s.len()
        invariant
            i <= s.len(),
            all_of(s@, CharClass::Digit),
            n == digits_value(s@.take(i as int)),
        decreases s.len() - i,
    {
        let c = s[i];
        proof {
            assert(class_has(CharClass::Digit, s@[i as int]));
            assert(s@.take(i + 1).drop_last() =~= s@.take(i as int));
            lemma_digits_value_prefix(s@, i + 1);
        }
        let d: u64 = (c as u32 - '0' as u32) as u64;
        if n > (u64::MAX - d) / 10 {
            return None;
        }
        n = n * 10 + d;
        i += 1;
    }
    proof {
        assert(s@.take(i as int) =~= s@);
    }
    Some(n)
}

proof fn lemma_set_of_concat(a: Seq<Seq<char>>, b: Seq<Seq<char>>)
    ensures
        (a + b).to_set() == a.to_set() + b.to_set(),
{
    assert forall|x: Seq<char>| #[trigger] (a + b).to_set().contains(x) == (a.to_set()
        + b.to_set()).contains(x) by {
        if a.contains(x) {
            let i = choose|i: int| 0 <= i < a.len() && a[i] == x;
            assert((a + b)[i] == x);
        }
        if b.contains(x) {
            let i = choose|i: int| 0 <= i < b.len() && b[i] == x;
            assert((a + b)[a.len() + i] == x);
        }
    }
    assert((a + b).to_set() =~= a.to_set() + b.to_set());
}

proof fn lemma_set_of_one(x: Seq<char>)
    ensures
        seq![x].to_set() == Set::<Seq<char>>::empty().insert(x),
{
    assert(seq![x][0] == x);
    assert(seq![x].to_set() =~= Set::<Seq<char>>::empty().insert(x));
}

/// Add to `seen` the lines that are not in it, each once.
fn note_lines(lines: &[String], seen: &mut Vec<String>)
    requires
        strs(old(seen)@).no_duplicates(),
    ensures
        strs(final(seen)@).no_duplicates(),
        strs(final(seen)@).to_set() == strs(old(seen)@).to_set() + strs(lines@).to_set(),
{
    let ghost texts = strs(lines@);
    let ghost before = strs(seen@).to_set();
    let mut i: usize = 0;
    proof {
        assert(strs(seen@).to_set() =~= before + texts.take(0).to_set());
    }
    while i < lines.len()
        invariant
            i <= lines.len(),
            texts == strs(lines@),
            strs(seen@).no_duplicates(),
            strs(seen@).to_set() == before + texts.take(i as int).to_set(),
        decreases lines.len() - i,
    {
        let ghost known = strs(seen@);
        let ghost line = lines@[i as int]@;
        let mut k: usize = 0;
        while k < seen.len() && !same_text(seen[k].as_str(), lines[i].as_str())
            invariant
                i < lines.len(),
                k <= seen.len(),
                known == strs(seen@),
                line == lines@[i as int]@,
                forall|j: int| 0 <= j < k ==> #[trigger] known[j] != line,
            decreases seen.len() - k,
        {
            k += 1;
        }
        if k == seen.len() {
            seen.push(lines[i].clone());
            proof {
                assert(strs(seen@) =~= known + seq![line]);
            }
        } else {
            proof {
                assert(known[k as int] == line);
            }
        }
        proof {
            let shown = texts.take(i + 1);
            assert(shown =~= texts.take(i as int) + seq![line]);
            lemma_set_of_concat(texts.take(i as int), seq![line]);
            lemma_set_of_concat(known, seq![line]);
            lemma_set_of_one(line);
            assert(strs(seen@).to_set() =~= before + shown.to_set());
        }
        i += 1;
    }
    proof {
        assert(texts.take(i as int) =~= texts);
    }
}

/// Whether the different lines of two lists can be numbered by a `u32`.
pub fn can_number_lines(old: &[String], new: &[String]) -> (yes: bool)
    ensures
        yes == (distinct_count(strs(old@) + strs(new@)) <= u32::MAX),
{
    let ghost all = strs(old@) + strs(new@);
    proof {
        all.lemma_cardinality_of_set();
    }
    if old.len() as u128 + new.len() as u128 <= u32::MAX as u128 {
        return true;
    }
    let mut seen: Vec<String> = Vec::new();
    note_lines(old, &mut seen);
    note_lines(new, &mut seen);
    proof {
        lemma_set_of_concat(strs(old@), strs(new@));
        assert(strs(seen@).to_set() =~= all.to_set());
        strs(seen@).unique_seq_to_set();
    }
    seen.len() as u128 <= u32::MAX as u128
}

} // verus!
