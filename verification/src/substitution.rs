//! What it means to replace a text by another: the matches, what stands between them, and the lines
//! on which they stand.

use crate::edit::planned;
use crate::search::{
    all_replaced, first_match, first_replaced, lemma_first_match, match_count, spread, text_lines,
};
use crate::text::{
    class_has, decimal, leading, lemma_leading, lemma_lines_nonempty, lines_of, CharClass,
};
use vstd::prelude::*;

verus! {

pub open spec fn occurs_at(text: Seq<char>, pattern: Seq<char>, at: int) -> bool {
    0 <= at && at + pattern.len() <= text.len() && text.subrange(at, at + pattern.len()) == pattern
}

/// The parts one after the other, with `sep` between each and the next.
pub open spec fn interleaved(parts: Seq<Seq<char>>, sep: Seq<char>) -> Seq<char>
    decreases parts.len(),
{
    if parts.len() == 0 {
        seq![]
    } else if parts.len() == 1 {
        parts[0]
    } else {
        parts[0] + sep + interleaved(parts.skip(1), sep)
    }
}

/// The text is cut at its matches, from left to right: put together with the pattern between them
/// the parts are the text, each match is the leftmost behind the one before it, and none is left
/// over.
pub open spec fn is_split_at(text: Seq<char>, pattern: Seq<char>, parts: Seq<Seq<char>>) -> bool {
    &&& parts.len() > 0
    &&& text == interleaved(parts, pattern)
    &&& forall|i: int, j: int|
        0 <= i < parts.len() - 1 && 0 <= j < parts[i].len() ==> !(#[trigger] occurs_at(
            parts[i] + pattern,
            pattern,
            j,
        ))
    &&& forall|j: int| !(#[trigger] occurs_at(parts.last(), pattern, j))
}

pub open spec fn line_feeds(text: Seq<char>) -> nat {
    text.filter(|c: char| c == '\n').len()
}

// ---------------------------------------------------------------------------------------------
// Matches

proof fn lemma_occurs(text: Seq<char>, pattern: Seq<char>, at: int)
    requires
        0 <= at <= text.len(),
    ensures
        occurs_at(text, pattern, at) <==> pattern.is_prefix_of(text.skip(at)),
{
    let rest = text.skip(at);
    if pattern.is_prefix_of(rest) {
        assert(text.subrange(at, at + pattern.len()) =~= rest.subrange(0, pattern.len() as int));
    }
    if occurs_at(text, pattern, at) {
        assert(rest.subrange(0, pattern.len() as int) =~= text.subrange(at, at + pattern.len()));
    }
}

spec fn parts_of(text: Seq<char>, pattern: Seq<char>) -> Seq<Seq<char>>
    decreases text.len(),
{
    match first_match(text, pattern) {
        None => seq![text],
        Some(i) => if pattern.len() > 0 && i + pattern.len() <= text.len() {
            seq![text.take(i as int)] + parts_of(text.skip(i as int + pattern.len()), pattern)
        } else {
            seq![text]
        },
    }
}

proof fn lemma_parts(text: Seq<char>, pattern: Seq<char>, by: Seq<char>)
    requires
        pattern.len() > 0,
    ensures
        is_split_at(text, pattern, parts_of(text, pattern)),
        parts_of(text, pattern).len() == match_count(text, pattern) + 1,
        all_replaced(text, pattern, by) == interleaved(parts_of(text, pattern), by),
    decreases text.len(),
{
    lemma_first_match(text, pattern);
    let parts = parts_of(text, pattern);
    match first_match(text, pattern) {
        None => {
            assert forall|j: int| !(#[trigger] occurs_at(parts.last(), pattern, j)) by {
                if 0 <= j <= text.len() {
                    lemma_occurs(text, pattern, j);
                }
            }
        },
        Some(i) => {
            let rest = text.skip(i as int + pattern.len());
            let more = parts_of(rest, pattern);
            lemma_parts(rest, pattern, by);
            assert(parts.skip(1) =~= more);
            assert(parts[0] == text.take(i as int));
            lemma_occurs(text, pattern, i as int);
            assert(text =~= text.take(i as int) + pattern + rest);
            assert(parts.last() == more.last());
            assert forall|k: int, j: int|
                0 <= k < parts.len() - 1 && 0 <= j < parts[k].len() implies !(
            #[trigger] occurs_at(parts[k] + pattern, pattern, j)) by {
                if k == 0 {
                    let s = parts[0] + pattern;
                    if occurs_at(s, pattern, j) {
                        assert(s =~= text.take(i as int + pattern.len()));
                        assert(text.subrange(j, j + pattern.len()) =~= s.subrange(
                            j,
                            j + pattern.len(),
                        ));
                        lemma_occurs(text, pattern, j);
                        assert(!pattern.is_prefix_of(text.skip(j)));
                    }
                } else {
                    assert(parts[k] == more[k - 1]);
                }
            }
        },
    }
}

/// The first match is the leftmost place where the pattern stands in the text, and there is none
/// only where it stands nowhere.
pub proof fn law_first_match_is_leftmost(text: Seq<char>, pattern: Seq<char>)
    ensures
        match first_match(text, pattern) {
            Some(i) => occurs_at(text, pattern, i as int) && forall|j: int|
                j < i ==> !(#[trigger] occurs_at(text, pattern, j)),
            None => forall|j: int| !(#[trigger] occurs_at(text, pattern, j)),
        },
{
    lemma_first_match(text, pattern);
    if let Some(i) = first_match(text, pattern) {
        lemma_occurs(text, pattern, i as int);
    }
    assert forall|j: int| (first_match(text, pattern) matches Some(i) ==> j < i) implies !(
    #[trigger] occurs_at(text, pattern, j)) by {
        if 0 <= j <= text.len() {
            lemma_occurs(text, pattern, j);
        }
    }
}

/// A text is replaced match by match: what stands between the matches is kept, each match gives way
/// to the new text, and the count is that of the matches. The new text may be any, also the empty
/// one.
pub proof fn law_every_match_is_replaced(text: Seq<char>, pattern: Seq<char>, by: Seq<char>)
    requires
        pattern.len() > 0,
    ensures
        exists|parts: Seq<Seq<char>>|
            #[trigger] is_split_at(text, pattern, parts) && match_count(text, pattern)
                == parts.len() - 1 && all_replaced(text, pattern, by) == interleaved(parts, by)
                && (parts.len() > 1 ==> first_replaced(text, pattern, by) == parts[0] + by
                + interleaved(parts.skip(1), pattern)),
{
    let parts = parts_of(text, pattern);
    lemma_parts(text, pattern, by);
    lemma_first_match(text, pattern);
    if let Some(i) = first_match(text, pattern) {
        let rest = text.skip(i as int + pattern.len());
        lemma_parts(rest, pattern, by);
        assert(parts.skip(1) =~= parts_of(rest, pattern));
    }
}

// ---------------------------------------------------------------------------------------------
// Lines

proof fn lemma_line_feeds_concat(a: Seq<char>, b: Seq<char>)
    ensures
        line_feeds(a + b) == line_feeds(a) + line_feeds(b),
{
    Seq::filter_distributes_over_add(a, b, |c: char| c == '\n');
}

proof fn lemma_no_line_feeds(s: Seq<char>)
    requires
        forall|i: int| 0 <= i < s.len() ==> #[trigger] s[i] != '\n',
    ensures
        line_feeds(s) == 0,
    decreases s.len(),
{
    reveal(Seq::filter);
    if s.len() > 0 {
        lemma_no_line_feeds(s.drop_last());
        assert(s.last() == s[s.len() - 1]);
    }
}

/// A text has one line more than it has line feeds.
pub proof fn law_line_feeds_separate_lines(text: Seq<char>)
    ensures
        lines_of(text).len() == line_feeds(text) + 1,
    decreases text.len(),
{
    let n = leading(text, CharClass::InLine);
    lemma_leading(text, CharClass::InLine);
    if n < text.len() {
        let head = text.take(n as int);
        let rest = text.skip(n as int + 1);
        law_line_feeds_separate_lines(rest);
        assert forall|i: int| 0 <= i < head.len() implies #[trigger] head[i] != '\n' by {
            assert(class_has(CharClass::InLine, text[i]));
        }
        lemma_no_line_feeds(head);
        let one = seq!['\n'];
        reveal(Seq::filter);
        assert(one.drop_last() =~= seq![]);
        reveal_with_fuel(Seq::filter, 2);
        assert(line_feeds(one) == 1);
        assert(text =~= head + one + rest);
        lemma_line_feeds_concat(head + one, rest);
        lemma_line_feeds_concat(head, one);
    } else {
        assert forall|i: int| 0 <= i < text.len() implies #[trigger] text[i] != '\n' by {
            assert(class_has(CharClass::InLine, text[i]));
        }
        lemma_no_line_feeds(text);
    }
}

/// How many lines the text goes on behind its first: one for each line feed but a final one.
pub open spec fn further_lines(text: Seq<char>) -> int {
    line_feeds(text) - if text.len() > 0 && text.last() == '\n' {
        1int
    } else {
        0
    }
}

proof fn lemma_last_line(text: Seq<char>)
    ensures
        lines_of(text).last().len() == 0 <==> text.len() == 0 || text.last() == '\n',
    decreases text.len(),
{
    let n = leading(text, CharClass::InLine);
    lemma_leading(text, CharClass::InLine);
    if n < text.len() {
        let rest = text.skip(n as int + 1);
        lemma_last_line(rest);
        lemma_lines_nonempty(rest);
        assert(lines_of(text).last() == lines_of(rest).last());
        if rest.len() > 0 {
            assert(rest.last() == text.last());
        } else {
            assert(!class_has(CharClass::InLine, text[n as int]));
        }
    } else if text.len() > 0 {
        assert(class_has(CharClass::InLine, text[text.len() - 1]));
    }
}

proof fn lemma_further_lines(text: Seq<char>)
    ensures
        text_lines(text).len() == 0 ==> further_lines(text) == 0,
        text_lines(text).len() > 0 ==> text_lines(text).len() - 1 == further_lines(text),
{
    law_line_feeds_separate_lines(text);
    lemma_last_line(text);
    lemma_lines_nonempty(text);
    reveal(Seq::filter);
    if text.len() == 0 {
        lemma_no_line_feeds(text);
    } else if text.last() == '\n' {
        assert(line_feeds(text) == line_feeds(text.drop_last()) + 1);
    }
}

// ---------------------------------------------------------------------------------------------
// The planned edit

/// A replacement in a file: where the text occurs, and occurs once or is to be replaced everywhere,
/// the new contents have the new text in place of each occurrence and are otherwise as they were.
/// The lines that are reported are those of the new text at the first occurrence. A text that
/// occurs more than once is refused with the number of its occurrences unless all are to be
/// replaced, and one that does not occur is refused.
pub proof fn law_replacement_is_planned(
    content: Seq<char>,
    old_string: Seq<char>,
    new_string: Seq<char>,
    replace_all: bool,
    file_path: Seq<char>,
)
    requires
        old_string.len() > 0,
    ensures
        exists|parts: Seq<Seq<char>>| #[trigger]
            is_split_at(content, old_string, parts) && {
                let found = parts.len() - 1;
                match planned(content, old_string, new_string, replace_all, file_path) {
                    Ok(edit) => {
                        &&& found == 1 || (found > 1 && replace_all)
                        &&& edit.occurrences == found
                        &&& edit.content == interleaved(parts, new_string)
                        &&& edit.start_line == 1 + line_feeds(parts[0])
                        &&& edit.end_line == edit.start_line + further_lines(new_string)
                    },
                    Err(message) => {
                        &&& found == 0 || (found > 1 && !replace_all)
                        &&& found > 1 ==> message == "old_string found "@ + decimal(found as nat)
                            + " times in the file. Either:\n1. Provide more context to make it unique, or\n2. Set replace_all: true to replace all occurrences"@
                    },
                }
            },
{
    let parts = parts_of(content, old_string);
    lemma_parts(content, old_string, new_string);
    lemma_first_match(content, old_string);
    lemma_further_lines(new_string);
    if let Some(i) = first_match(content, old_string) {
        assert(parts[0] == content.take(i as int));
        law_line_feeds_separate_lines(parts[0]);
        let rest = content.skip(i as int + old_string.len());
        lemma_parts(rest, old_string, new_string);
        assert(parts.skip(1) =~= parts_of(rest, old_string));
        if parts.len() == 2 {
            assert(parts.skip(1).len() == 1);
            assert(interleaved(parts.skip(1), new_string) == parts[1]);
            assert(interleaved(parts.skip(1), old_string) == parts[1]);
            assert(rest == parts[1]);
        }
    }
}

/// The empty text occurs before and after every character. It is replaced everywhere where that is
/// asked for, and in an empty file; else it is refused.
pub proof fn law_empty_text_is_replaced_everywhere(
    content: Seq<char>,
    new_string: Seq<char>,
    replace_all: bool,
    file_path: Seq<char>,
)
    ensures
        match planned(content, seq![], new_string, replace_all, file_path) {
            Ok(edit) => {
                let parts = seq![Seq::<char>::empty()] + Seq::new(
                    content.len(),
                    |i: int| seq![content[i]],
                ) + seq![Seq::<char>::empty()];
                &&& replace_all || content.len() == 0
                &&& edit.occurrences == content.len() + 1
                &&& edit.content == interleaved(parts, new_string)
                &&& edit.start_line == 1
            },
            Err(_) => !replace_all && content.len() > 0,
        },
{
    let parts = seq![Seq::<char>::empty()] + Seq::new(content.len(), |i: int| seq![content[i]])
        + seq![Seq::<char>::empty()];
    let none = Seq::<char>::empty();
    assert(none.is_prefix_of(content));
    assert(first_match(content, none) == Some(0nat));
    assert(content.take(0) =~= none);
    law_line_feeds_separate_lines(none);
    lemma_no_line_feeds(none);
    lemma_spread(content, new_string);
    assert(seq![] + new_string + content.skip(0) =~= new_string + content);
    if content.len() == 0 {
        assert(first_replaced(content, none, new_string) =~= new_string);
        assert(spread(content, new_string) =~= new_string);
        assert(parts =~= seq![none, none]);
    }
}

proof fn lemma_interleaved_push(parts: Seq<Seq<char>>, last: Seq<char>, sep: Seq<char>)
    requires
        parts.len() > 0,
    ensures
        interleaved(parts.push(last), sep) == interleaved(parts, sep) + sep + last,
    decreases parts.len(),
{
    let all = parts.push(last);
    if parts.len() == 1 {
        assert(all.skip(1) =~= seq![last]);
        assert(interleaved(seq![last], sep) == last);
    } else {
        assert(all.skip(1) =~= parts.skip(1).push(last));
        lemma_interleaved_push(parts.skip(1), last, sep);
        assert(interleaved(all, sep) =~= interleaved(parts, sep) + sep + last);
    }
}

proof fn lemma_spread(text: Seq<char>, by: Seq<char>)
    ensures
        spread(text, by) == interleaved(
            seq![Seq::<char>::empty()] + Seq::new(text.len(), |i: int| seq![text[i]]) + seq![
                Seq::<char>::empty(),
            ],
            by,
        ),
    decreases text.len(),
{
    let none = Seq::<char>::empty();
    let head = seq![none] + Seq::new(text.len(), |i: int| seq![text[i]]);
    assert(head + seq![none] =~= head.push(none));
    lemma_interleaved_push(head, none, by);
    if text.len() == 0 {
        assert(head =~= seq![none]);
        assert(interleaved(seq![none], by) == none);
        assert(spread(text, by) =~= interleaved(head, by) + by + none);
    } else {
        let front = text.drop_last();
        let less = seq![none] + Seq::new(front.len(), |i: int| seq![front[i]]);
        assert(head =~= less.push(seq![text.last()]));
        lemma_interleaved_push(less, seq![text.last()], by);
        lemma_spread(front, by);
        assert(less + seq![none] =~= less.push(none));
        lemma_interleaved_push(less, none, by);
        assert(spread(text, by) =~= interleaved(head, by) + by + none);
    }
}

} // verus!
