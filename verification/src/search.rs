//! Lines as the standard library splits them, and finding and replacing text.

use crate::text::{
    chars_of, ends_with_char, last_is, line_spans, lines_of, part, push_chars, skip, spans_of,
    string_of, strs, take,
};
use vstd::prelude::*;

verus! {

// ---------------------------------------------------------------------------------------------
// Lines

pub open spec fn without_cr(line: Seq<char>) -> Seq<char> {
    if ends_with_char(line, '\r') {
        line.drop_last()
    } else {
        line
    }
}

/// The lines of a text without their line feed or CRLF. A final line feed ends the last line, and an
/// empty text has no line.
pub open spec fn text_lines(text: Seq<char>) -> Seq<Seq<char>> {
    let all = lines_of(text);
    let last = all.len() - 1;
    let ended = Seq::new(last as nat, |i: int| without_cr(all[i]));
    if all[last].len() == 0 {
        ended
    } else {
        ended.push(all[last])
    }
}

/// The lines of a text, as `str::lines` of the standard library gives them.
pub fn split_text_lines(text: &str) -> (out: Vec<String>)
    ensures
        strs(out@) == text_lines(text@),
{
    let chars = chars_of(text);
    let s = chars.as_slice();
    let spans = line_spans(s);
    let ghost all = lines_of(text@);
    let last = spans.len() - 1;
    let mut out: Vec<String> = Vec::new();
    let mut i: usize = 0;
    while i < last
        invariant
            i <= last,
            last == spans.len() - 1,
            all == lines_of(s@),
            spans_of(spans@, s@, all),
            out@.len() == i,
            forall|k: int| 0 <= k < i ==> (#[trigger] out@[k])@ == without_cr(all[k]),
        decreases last - i,
    {
        let span = spans[i];
        let line = part(s, span.0, span.1);
        if last_is(line, '\r') {
            out.push(string_of(take(line, line.len() - 1)));
        } else {
            out.push(string_of(line));
        }
        i += 1;
    }
    let ghost ended = Seq::new(last as nat, |i: int| without_cr(all[i]));
    proof {
        assert(strs(out@) =~= ended);
    }
    let span = spans[last];
    let line = part(s, span.0, span.1);
    if line.len() > 0 {
        out.push(string_of(line));
        proof {
            assert(strs(out@) =~= ended.push(all[last as int]));
        }
    }
    out
}

// ---------------------------------------------------------------------------------------------
// Finding

/// Where `pattern` occurs first in `text`.
pub open spec fn first_match(text: Seq<char>, pattern: Seq<char>) -> Option<nat>
    decreases text.len(),
{
    if pattern.is_prefix_of(text) {
        Some(0)
    } else if text.len() == 0 {
        None
    } else {
        match first_match(text.skip(1), pattern) {
            Some(i) => Some(i + 1),
            None => None,
        }
    }
}

/// How often `pattern` occurs in `text`, without overlaps. An empty pattern occurs before and after
/// every character.
pub open spec fn match_count(text: Seq<char>, pattern: Seq<char>) -> nat
    decreases text.len(),
{
    if pattern.len() == 0 {
        text.len() + 1
    } else {
        match first_match(text, pattern) {
            None => 0,
            Some(i) => if i + pattern.len() <= text.len() {
                1 + match_count(text.skip(i as int + pattern.len()), pattern)
            } else {
                0
            },
        }
    }
}

/// `text` with its first occurrence of `pattern` replaced.
pub open spec fn first_replaced(text: Seq<char>, pattern: Seq<char>, by: Seq<char>) -> Seq<char> {
    match first_match(text, pattern) {
        None => text,
        Some(i) => text.take(i as int) + by + text.skip(i as int + pattern.len()),
    }
}

/// `text` with every occurrence of `pattern` replaced.
pub open spec fn all_replaced(text: Seq<char>, pattern: Seq<char>, by: Seq<char>) -> Seq<char>
    decreases text.len(),
{
    if pattern.len() == 0 {
        spread(text, by)
    } else {
        match first_match(text, pattern) {
            None => text,
            Some(i) => if i + pattern.len() <= text.len() {
                text.take(i as int) + by + all_replaced(
                    text.skip(i as int + pattern.len()),
                    pattern,
                    by,
                )
            } else {
                text
            },
        }
    }
}

/// `by` before and after every character of `text`.
pub open spec fn spread(text: Seq<char>, by: Seq<char>) -> Seq<char>
    decreases text.len(),
{
    if text.len() == 0 {
        by
    } else {
        spread(text.drop_last(), by) + seq![text.last()] + by
    }
}

pub proof fn lemma_first_match(text: Seq<char>, pattern: Seq<char>)
    ensures
        match first_match(text, pattern) {
            Some(i) => i + pattern.len() <= text.len() && pattern.is_prefix_of(text.skip(i as int))
                && forall|j: int|
                0 <= j < i ==> !pattern.is_prefix_of(#[trigger] text.skip(j)),
            None => forall|j: int|
                0 <= j <= text.len() ==> !pattern.is_prefix_of(#[trigger] text.skip(j)),
        },
    decreases text.len(),
{
    assert(text.skip(0) =~= text);
    if !pattern.is_prefix_of(text) && text.len() > 0 {
        let rest = text.skip(1);
        lemma_first_match(rest, pattern);
        assert forall|j: int| 1 <= j <= text.len() implies #[trigger] text.skip(j) == rest.skip(
            j - 1,
        ) by {
            assert(text.skip(j) =~= rest.skip(j - 1));
        }
    }
}

proof fn lemma_first_match_is(text: Seq<char>, pattern: Seq<char>, n: nat)
    requires
        n + pattern.len() <= text.len(),
        pattern.is_prefix_of(text.skip(n as int)),
        forall|j: int| 0 <= j < n ==> !pattern.is_prefix_of(#[trigger] text.skip(j)),
    ensures
        first_match(text, pattern) == Some(n),
{
    lemma_first_match(text, pattern);
    match first_match(text, pattern) {
        Some(i) => {
            if i < n {
                assert(!pattern.is_prefix_of(text.skip(i as int)));
            }
        },
        None => {
            assert(!pattern.is_prefix_of(text.skip(n as int)));
        },
    }
}

fn begins_with(text: &[char], at: usize, pattern: &[char]) -> (yes: bool)
    requires
        at <= text@.len(),
    ensures
        yes == pattern@.is_prefix_of(text@.skip(at as int)),
{
    let count = text.len();
    if pattern.len() > count - at {
        return false;
    }
    let mut i: usize = 0;
    while i < pattern.len()
        invariant
            i <= pattern.len(),
            count == text@.len(),
            at + pattern@.len() <= count,
            forall|k: int| 0 <= k < i ==> pattern@[k] == text@[at + k],
        decreases pattern.len() - i,
    {
        if text[at + i] != pattern[i] {
            proof {
                assert(text@.skip(at as int)[i as int] == text@[at + i]);
            }
            return false;
        }
        i += 1;
    }
    proof {
        assert(pattern@ =~= text@.skip(at as int).subrange(0, pattern@.len() as int));
    }
    true
}

/// Where a pattern occurs first.
pub fn find(text: &[char], pattern: &[char]) -> (r: Option<usize>)
    ensures
        match r {
            Some(i) => first_match(text@, pattern@) == Some(i as nat) && i + pattern@.len()
                <= text@.len(),
            None => first_match(text@, pattern@) is None,
        },
{
    let mut i: usize = 0;
    proof {
        lemma_first_match(text@, pattern@);
    }
    while i < text.len()
        invariant
            i <= text.len(),
            forall|j: int| 0 <= j < i ==> !pattern@.is_prefix_of(#[trigger] text@.skip(j)),
        decreases text.len() - i,
    {
        if begins_with(text, i, pattern) {
            proof {
                lemma_first_match_is(text@, pattern@, i as nat);
            }
            return Some(i);
        }
        i += 1;
    }
    if begins_with(text, i, pattern) {
        proof {
            lemma_first_match_is(text@, pattern@, i as nat);
        }
        return Some(i);
    }
    proof {
        match first_match(text@, pattern@) {
            Some(k) => {
                lemma_first_match(text@, pattern@);
                assert(!pattern@.is_prefix_of(text@.skip(k as int)));
            },
            None => {},
        }
    }
    None
}

/// How often a pattern occurs, without overlaps.
pub fn count_matches(text: &[char], pattern: &[char]) -> (n: u128)
    ensures
        n == match_count(text@, pattern@),
{
    let count = text.len();
    if pattern.len() == 0 {
        return count as u128 + 1;
    }
    let mut n: u128 = 0;
    let mut at: usize = 0;
    proof {
        assert(text@.skip(0) =~= text@);
    }
    loop
        invariant
            count == text@.len(),
            at <= text@.len(),
            n <= at,
            pattern@.len() > 0,
            match_count(text@, pattern@) == n + match_count(text@.skip(at as int), pattern@),
        ensures
            n == match_count(text@, pattern@),
        decreases text@.len() - at,
    {
        let rest = skip(text, at);
        match find(rest, pattern) {
            None => {
                break;
            },
            Some(i) => {
                proof {
                    assert(rest@.skip(i + pattern@.len()) =~= text@.skip(at + i + pattern@.len()));
                }
                n += 1;
                at = at + i + pattern.len();
            },
        }
    }
    n
}

/// Replace the first occurrence.
pub fn replace_first(text: &[char], pattern: &[char], by: &[char]) -> (out: String)
    ensures
        out@ == first_replaced(text@, pattern@, by@),
{
    let count = text.len();
    let mut out = String::new();
    match find(text, pattern) {
        None => {
            push_chars(&mut out, text);
        },
        Some(i) => {
            assert(i + pattern@.len() <= count);
            push_chars(&mut out, take(text, i));
            push_chars(&mut out, by);
            push_chars(&mut out, skip(text, i + pattern.len()));
        },
    }
    proof {
        assert(out@ =~= first_replaced(text@, pattern@, by@));
    }
    out
}

fn spread_over(text: &[char], by: &[char]) -> (out: String)
    ensures
        out@ == spread(text@, by@),
{
    let mut out = string_of(by);
    let mut i: usize = 0;
    proof {
        assert(text@.take(0) =~= seq![]);
    }
    while i < text.len()
        invariant
            i <= text.len(),
            out@ == spread(text@.take(i as int), by@),
        decreases text.len() - i,
    {
        proof {
            assert(text@.take(i + 1).drop_last() =~= text@.take(i as int));
        }
        let ghost had = out@;
        out.push(text[i]);
        push_chars(&mut out, by);
        proof {
            assert(out@ =~= had + seq![text@[i as int]] + by@);
        }
        i += 1;
    }
    proof {
        assert(text@.take(i as int) =~= text@);
    }
    out
}

/// Replace every occurrence.
pub fn replace_all_matches(text: &[char], pattern: &[char], by: &[char]) -> (out: String)
    ensures
        out@ == all_replaced(text@, pattern@, by@),
{
    if pattern.len() == 0 {
        return spread_over(text, by);
    }
    let count = text.len();
    let mut out = String::new();
    let mut at: usize = 0;
    proof {
        assert(text@.skip(0) =~= text@);
        assert(out@ + all_replaced(text@, pattern@, by@) =~= all_replaced(text@, pattern@, by@));
    }
    loop
        invariant
            count == text@.len(),
            at <= text@.len(),
            pattern@.len() > 0,
            all_replaced(text@, pattern@, by@) == out@ + all_replaced(
                text@.skip(at as int),
                pattern@,
                by@,
            ),
        ensures
            at <= text@.len(),
            all_replaced(text@, pattern@, by@) == out@ + text@.skip(at as int),
        decreases text@.len() - at,
    {
        let rest = skip(text, at);
        match find(rest, pattern) {
            None => {
                break;
            },
            Some(i) => {
                let ghost had = out@;
                push_chars(&mut out, take(rest, i));
                push_chars(&mut out, by);
                proof {
                    let tail = rest@.skip(i + pattern@.len());
                    assert(tail =~= text@.skip(at + i + pattern@.len()));
                    assert(had + (rest@.take(i as int) + by@ + all_replaced(tail, pattern@, by@))
                        =~= out@ + all_replaced(tail, pattern@, by@));
                }
                at = at + i + pattern.len();
            },
        }
    }
    push_chars(&mut out, skip(text, at));
    out
}

// ---------------------------------------------------------------------------------------------
// Laws

/// A pattern that does not occur leaves a text as it is.
pub proof fn law_replacing_nothing(text: Seq<char>, pattern: Seq<char>, by: Seq<char>)
    requires
        match_count(text, pattern) == 0,
    ensures
        first_replaced(text, pattern, by) == text,
        all_replaced(text, pattern, by) == text,
{
    lemma_first_match(text, pattern);
}

/// Where a pattern occurs once, replacing the first occurrence replaces them all.
pub proof fn law_replacing_a_single_match(text: Seq<char>, pattern: Seq<char>, by: Seq<char>)
    requires
        pattern.len() > 0,
        match_count(text, pattern) == 1,
    ensures
        first_replaced(text, pattern, by) == all_replaced(text, pattern, by),
{
    lemma_first_match(text, pattern);
    let i = first_match(text, pattern)->0;
    law_replacing_nothing(text.skip(i as int + pattern.len()), pattern, by);
}

} // verus!
